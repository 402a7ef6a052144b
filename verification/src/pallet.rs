//! The Rosca system as one explicit state bundle: every Rosca addressed by
//! its id, the model ledger, the injected clock and shuffle entropy, and
//! the log of emitted events. Each exposed operation is all-or-nothing: it
//! either fully succeeds or fails with a named error and leaves the whole
//! state unchanged.

use vstd::prelude::*;

use crate::ledger::bal_of;
use crate::ledger::Ledger;
use crate::state::rosca_inv;
use crate::state::RoscaState;
use crate::state::RoscaV;
use crate::types::Error;
use crate::types::PaymentAssets;
use crate::types::MAX_PARTICIPANTS;
use crate::types::Event;
use crate::types::Phase;
use crate::types::RoscaDetails;
use crate::types::RoundInfo;
use crate::types::ROSCA_ACCOUNT_BASE;
use crate::umap::UMap;

verus! {

/// Whether a details record carries the configuration of a Rosca view.
pub open spec fn details_match(d: RoscaDetails, v: RoscaV) -> bool {
    &&& d.random_order == v.random_order
    &&& d.number_of_participants == v.number_of_participants
    &&& d.minimum_participant_threshold == v.minimum_participant_threshold
    &&& d.contribution_amount == v.contribution_amount
    &&& d.payment_asset == v.payment_asset
    &&& d.contribution_frequency == v.contribution_frequency
    &&& d.start_by_timestamp == v.start_by_timestamp
    &&& d.name@ == v.name
}

/// The escrow account a Rosca keeps its deposits in.
pub open spec fn pot_of(rosca_id: u32) -> u64 {
    (ROSCA_ACCOUNT_BASE + rosca_id) as u64
}

/// Whether a schedule row describes round `i` of a claim order: cutoffs
/// advance by one frequency increment per round, recipients walk the
/// order from its trailing element, and everyone else is expected to
/// contribute.
pub open spec fn round_matches(
    ri: RoundInfo,
    participants: Seq<u64>,
    current_time: u64,
    frequency: u64,
    i: int,
) -> bool {
    &&& ri.round_number == i + 1
    &&& ri.payment_cutoff == current_time as int + i * frequency as int
    &&& ri.recipient == participants[participants.len() - 1 - i]
    &&& ri.expected_contributors@ == others_seq(
        participants,
        participants[participants.len() - 1 - i],
    )
}

/// A claim order without one designated recipient.
pub open spec fn others_seq(participants: Seq<u64>, recipient: u64) -> Seq<u64> {
    participants.filter(|x: u64| x != recipient)
}

/// The mathematical view of the whole system.
#[verifier::ext_equal]
pub struct PalletV {
    pub next_rosca_id: u32,
    pub roscas: Seq<RoscaV>,
    pub balances: Map<u64, u128>,
    pub now: u64,
    pub entropy: Seq<u8>,
    pub events: Seq<Event>,
}

/// The whole system state: the Roscas, the model ledger, the injected
/// clock and entropy, and the emitted events.
pub struct Pallet {
    next_rosca_id: u32,
    roscas: Vec<RoscaState>,
    ledger: Ledger,
    now: u64,
    entropy: Vec<u8>,
    events: Vec<Event>,
}

impl View for Pallet {
    type V = PalletV;

    closed spec fn view(&self) -> PalletV {
        PalletV {
            next_rosca_id: self.next_rosca_id,
            roscas: self.roscas@.map_values(|r: RoscaState| r@),
            balances: self.ledger@,
            now: self.now,
            entropy: self.entropy@,
            events: self.events@,
        }
    }
}

impl Pallet {
    /// Internal well-formedness: ids are dense, every table holds each key
    /// once, and every committed Rosca satisfies the state invariant.
    pub closed spec fn wf(&self) -> bool {
        &&& self.next_rosca_id as int == self.roscas@.len()
        &&& self.ledger.wf()
        &&& forall|i: int| 0 <= i < self.roscas@.len() ==> (#[trigger] self.roscas@[i]).wf()
        &&& forall|i: int| 0 <= i < self.roscas@.len() ==> rosca_inv(#[trigger] self.roscas@[i]@)
    }

    /// Every committed Rosca of a well-formed system satisfies the state
    /// invariant, and ids are dense.
    pub proof fn lemma_wf_inv(&self)
        requires
            self.wf(),
        ensures
            self@.next_rosca_id as int == self@.roscas.len(),
            forall|i: int| 0 <= i < self@.roscas.len() ==> rosca_inv(#[trigger] self@.roscas[i]),
    {
        assert forall|i: int| 0 <= i < self@.roscas.len() implies rosca_inv(
            #[trigger] self@.roscas[i],
        ) by {
            assert(self@.roscas[i] == self.roscas@[i]@);
        }
    }

    /// A fresh system: no Roscas, an empty ledger, the clock at zero.
    pub fn new() -> (r: Self)
        ensures
            r.wf(),
            r@ == (PalletV {
                next_rosca_id: 0u32,
                roscas: Seq::empty(),
                balances: Map::empty(),
                now: 0u64,
                entropy: Seq::empty(),
                events: Seq::empty(),
            }),
    {
        let r = Pallet {
            next_rosca_id: 0,
            roscas: Vec::new(),
            ledger: Ledger::new(),
            now: 0,
            entropy: Vec::new(),
            events: Vec::new(),
        };
        proof {
            assert(r@ =~= (PalletV {
                next_rosca_id: 0u32,
                roscas: Seq::empty(),
                balances: Map::empty(),
                now: 0u64,
                entropy: Seq::empty(),
                events: Seq::empty(),
            }));
        }
        r
    }

    /// Sets the injected clock.
    pub fn set_timestamp(&mut self, now: u64)
        requires
            old(self).wf(),
        ensures
            final(self).wf(),
            final(self)@ =~= (PalletV { now, ..old(self)@ }),
    {
        self.now = now;
    }

    /// The injected clock.
    pub fn timestamp(&self) -> (r: u64)
        ensures
            r == self@.now,
    {
        self.now
    }

    /// Sets the entropy the next shuffle draws from.
    pub fn set_entropy(&mut self, entropy: Vec<u8>)
        requires
            old(self).wf(),
        ensures
            final(self).wf(),
            final(self)@ =~= (PalletV { entropy: entropy@, ..old(self)@ }),
    {
        self.entropy = entropy;
    }

    /// The events emitted so far, oldest first.
    pub fn events(&self) -> (r: &Vec<Event>)
        ensures
            r@ == self@.events,
    {
        &self.events
    }

    /// The free ledger balance of an account.
    pub fn free_balance(&self, who: u64) -> (r: u128)
        requires
            self.wf(),
        ensures
            r == bal_of(self@.balances, who),
    {
        self.ledger.free_balance(who)
    }

    /// Creates new funds in an account.
    pub fn mint_into(&mut self, who: u64, amount: u128) -> (r: Result<(), Error>)
        requires
            old(self).wf(),
        ensures
            final(self).wf(),
            match r {
                Ok(()) => bal_of(old(self)@.balances, who) <= u128::MAX - amount && final(self)@
                    =~= (PalletV {
                    balances: old(self)@.balances.insert(
                        who,
                        (bal_of(old(self)@.balances, who) + amount) as u128,
                    ),
                    ..old(self)@
                }),
                Err(e) => e == Error::ArithmeticOverflow && bal_of(old(self)@.balances, who)
                    > u128::MAX - amount && final(self)@ == old(self)@,
            },
    {
        let r = self.ledger.mint_into(who, amount);
        proof {
            if r is Err {
                assert(final(self)@ =~= old(self)@);
            }
        }
        r
    }

    /// Sets the ledger balance of an account outright.
    pub fn set_balance(&mut self, who: u64, amount: u128)
        requires
            old(self).wf(),
        ensures
            final(self).wf(),
            final(self)@ =~= (PalletV {
                balances: old(self)@.balances.insert(who, amount),
                ..old(self)@
            }),
    {
        self.ledger.set_balance(who, amount);
    }

    /// The escrow account of a Rosca; disjoint from participant accounts
    /// by the account-range convention.
    pub fn rosca_account_id(rosca_id: u32) -> (r: u64)
        ensures
            r == pot_of(rosca_id),
    {
        ROSCA_ACCOUNT_BASE + (rosca_id as u64)
    }

    /// The id the next created Rosca will get.
    pub fn next_rosca_id(&self) -> (r: u32)
        ensures
            r == self@.next_rosca_id,
    {
        self.next_rosca_id
    }

    /// The configuration of a still-pending Rosca.
    pub fn rosca_details(&self, rosca_id: u32) -> (r: Option<&RoscaDetails>)
        requires
            self.wf(),
        ensures
            match r {
                Some(d) => (rosca_id as int) < self@.roscas.len() && self@.roscas[rosca_id as int].phase
                    is Pending && details_match(*d, self@.roscas[rosca_id as int]),
                None => (rosca_id as int) >= self@.roscas.len() || !(self@.roscas[rosca_id as int].phase
                    is Pending),
            },
    {
        let id = rosca_id as usize;
        if id < self.roscas.len() && matches!(self.roscas[id].phase, Phase::Pending) {
            Some(&self.roscas[id].details)
        } else {
            None
        }
    }

    /// The configuration of an active Rosca.
    pub fn active_roscas(&self, rosca_id: u32) -> (r: Option<&RoscaDetails>)
        requires
            self.wf(),
        ensures
            match r {
                Some(d) => (rosca_id as int) < self@.roscas.len() && self@.roscas[rosca_id as int].phase
                    is Active && details_match(*d, self@.roscas[rosca_id as int]),
                None => (rosca_id as int) >= self@.roscas.len() || !(self@.roscas[rosca_id as int].phase
                    is Active),
            },
    {
        let id = rosca_id as usize;
        if id < self.roscas.len() && matches!(self.roscas[id].phase, Phase::Active) {
            Some(&self.roscas[id].details)
        } else {
            None
        }
    }

    /// Whether a Rosca has completed.
    pub fn completed_roscas(&self, rosca_id: u32) -> (r: Option<()>)
        requires
            self.wf(),
        ensures
            r == if (rosca_id as int) < self@.roscas.len() && self@.roscas[rosca_id as int].phase
                is Completed {
                Some(())
            } else {
                None::<()>
            },
    {
        let id = rosca_id as usize;
        if id < self.roscas.len() && matches!(self.roscas[id].phase, Phase::Completed) {
            Some(())
        } else {
            None
        }
    }

    /// How many participants a Rosca has.
    pub fn participants_count(&self, rosca_id: u32) -> (r: Option<u32>)
        requires
            self.wf(),
        ensures
            r == if (rosca_id as int) < self@.roscas.len() {
                Some(self@.roscas[rosca_id as int].participants_count)
            } else {
                None::<u32>
            },
    {
        let id = rosca_id as usize;
        if id < self.roscas.len() {
            Some(self.roscas[id].participants_count)
        } else {
            None
        }
    }

    /// The pending position of a participant; `Some` exactly for members.
    pub fn participants(&self, rosca_id: u32, who: u64) -> (r: Option<u32>)
        requires
            self.wf(),
        ensures
            r == if (rosca_id as int) < self@.roscas.len() && self@.roscas[rosca_id as int].positions.contains_key(
                who,
            ) {
                Some(self@.roscas[rosca_id as int].positions[who])
            } else {
                None::<u32>
            },
    {
        let id = rosca_id as usize;
        if id < self.roscas.len() {
            self.roscas[id].positions.get(who)
        } else {
            None
        }
    }

    /// Whether an account was invited to a Rosca (the creator included).
    pub fn invited_preverified_participants(&self, rosca_id: u32, who: u64) -> (r: Option<()>)
        requires
            self.wf(),
        ensures
            r == if (rosca_id as int) < self@.roscas.len() && self@.roscas[rosca_id as int].invited.contains(
                who,
            ) {
                Some(())
            } else {
                None::<()>
            },
    {
        let id = rosca_id as usize;
        if id < self.roscas.len() {
            self.roscas[id].invited.get(who)
        } else {
            None
        }
    }

    /// The recorded security deposit of a participant, if any.
    pub fn security_deposit(&self, rosca_id: u32, who: u64) -> (r: Option<u32>)
        requires
            self.wf(),
        ensures
            r == if (rosca_id as int) < self@.roscas.len() && self@.roscas[rosca_id as int].deposits.contains_key(
                who,
            ) {
                Some(self@.roscas[rosca_id as int].deposits[who])
            } else {
                None::<u32>
            },
    {
        let id = rosca_id as usize;
        if id < self.roscas.len() {
            self.roscas[id].deposits.get(who)
        } else {
            None
        }
    }

    /// The pending claim order of a Rosca, one optional participant per
    /// position.
    pub fn pending_rosca_participants_order(&self, rosca_id: u32) -> (r: Option<Vec<Option<u64>>>)
        requires
            self.wf(),
        ensures
            match r {
                Some(v) => (rosca_id as int) < self@.roscas.len() && v@ == self@.roscas[rosca_id as int].pending_order,
                None => (rosca_id as int) >= self@.roscas.len(),
            },
    {
        let id = rosca_id as usize;
        if id < self.roscas.len() {
            Some(clone_vec_copy(&self.roscas[id].pending_order))
        } else {
            None
        }
    }

    /// The rotating claim order of a Rosca, from start onwards.
    pub fn active_rosca_participants_order(&self, rosca_id: u32) -> (r: Option<Vec<u64>>)
        requires
            self.wf(),
        ensures
            match r {
                Some(v) => (rosca_id as int) < self@.roscas.len() && !(self@.roscas[rosca_id as int].phase
                    is Pending) && v@ == self@.roscas[rosca_id as int].active_order,
                None => (rosca_id as int) >= self@.roscas.len() || self@.roscas[rosca_id as int].phase
                    is Pending,
            },
    {
        let id = rosca_id as usize;
        if id < self.roscas.len() && !matches!(self.roscas[id].phase, Phase::Pending) {
            Some(clone_vec_copy(&self.roscas[id].active_order))
        } else {
            None
        }
    }

    /// The designated recipient of the current round's pool, from start
    /// onwards.
    pub fn eligible_claimant(&self, rosca_id: u32) -> (r: Option<u64>)
        requires
            self.wf(),
        ensures
            r == if (rosca_id as int) < self@.roscas.len() && !(self@.roscas[rosca_id as int].phase
                is Pending) {
                Some(self@.roscas[rosca_id as int].eligible_claimant)
            } else {
                None::<u64>
            },
    {
        let id = rosca_id as usize;
        if id < self.roscas.len() && !matches!(self.roscas[id].phase, Phase::Pending) {
            Some(self.roscas[id].eligible_claimant)
        } else {
            None
        }
    }

    /// The current round's payment deadline, from start onwards.
    pub fn next_pay_by_timestamp(&self, rosca_id: u32) -> (r: Option<u64>)
        requires
            self.wf(),
        ensures
            r == if (rosca_id as int) < self@.roscas.len() && !(self@.roscas[rosca_id as int].phase
                is Pending) {
                Some(self@.roscas[rosca_id as int].next_pay_by)
            } else {
                None::<u64>
            },
    {
        let id = rosca_id as usize;
        if id < self.roscas.len() && !matches!(self.roscas[id].phase, Phase::Pending) {
            Some(self.roscas[id].next_pay_by)
        } else {
            None
        }
    }

    /// The last round's payment deadline, fixed at start.
    pub fn final_pay_by_timestamp(&self, rosca_id: u32) -> (r: Option<u64>)
        requires
            self.wf(),
        ensures
            r == if (rosca_id as int) < self@.roscas.len() && !(self@.roscas[rosca_id as int].phase
                is Pending) {
                Some(self@.roscas[rosca_id as int].final_pay_by)
            } else {
                None::<u64>
            },
    {
        let id = rosca_id as usize;
        if id < self.roscas.len() && !matches!(self.roscas[id].phase, Phase::Pending) {
            Some(self.roscas[id].final_pay_by)
        } else {
            None
        }
    }

    /// How many contributions the current round has received.
    pub fn current_contribution_count(&self, rosca_id: u32) -> (r: u32)
        requires
            self.wf(),
        ensures
            r == if (rosca_id as int) < self@.roscas.len() {
                self@.roscas[rosca_id as int].contribution_count
            } else {
                0u32
            },
    {
        let id = rosca_id as usize;
        if id < self.roscas.len() {
            self.roscas[id].current_contribution_count
        } else {
            0
        }
    }

    /// Whether a participant has contributed in the current round.
    pub fn current_contributors(&self, rosca_id: u32, who: u64) -> (r: Option<()>)
        requires
            self.wf(),
        ensures
            r == if (rosca_id as int) < self@.roscas.len() && self@.roscas[rosca_id as int].marks.contains(
                who,
            ) {
                Some(())
            } else {
                None::<()>
            },
    {
        let id = rosca_id as usize;
        if id < self.roscas.len() {
            self.roscas[id].current_contributors.get(who)
        } else {
            None
        }
    }

    /// How many defaults a participant has accumulated.
    pub fn default_count(&self, rosca_id: u32, who: u64) -> (r: u32)
        requires
            self.wf(),
        ensures
            r == if (rosca_id as int) < self@.roscas.len() {
                crate::model::def_of(self@.roscas[rosca_id as int].defaults, who)
            } else {
                0u32
            },
    {
        let id = rosca_id as usize;
        if id < self.roscas.len() {
            match self.roscas[id].default_counts.get(who) {
                Some(c) => c,
                None => 0,
            }
        } else {
            0
        }
    }

    /// Joins a still-pending Rosca: an invited newcomer fills the
    /// requested slot, or the first empty one when none is requested,
    /// before the start-by deadline.
    pub fn join_rosca(&mut self, signer: u64, rosca_id: u32, position: Option<u32>) -> (r: Result<
        (),
        Error,
    >)
        requires
            old(self).wf(),
        ensures
            final(self).wf(),
            ({
                let pre = old(self)@;
                let post = final(self)@;
                if (rosca_id as int) < pre.roscas.len() {
                    match crate::model::spec_join(
                        pre.roscas[rosca_id as int],
                        signer,
                        position,
                        pre.now,
                    ) {
                        Ok(v) => r == Ok::<(), Error>(()) && post =~= (PalletV {
                            roscas: pre.roscas.update(rosca_id as int, v),
                            events: pre.events.push(
                                Event::JoinedRosca { rosca_id, contributor: signer },
                            ),
                            ..pre
                        }),
                        Err(e) => r == Err::<(), Error>(e) && post == pre,
                    }
                } else {
                    r == Err::<(), Error>(Error::NotInvited) && post == pre
                }
            }),
    {
        let ghost pre = self@;
        let id = rosca_id as usize;
        if id >= self.roscas.len() {
            return Err(Error::NotInvited);
        }
        let ghost s = pre.roscas[id as int];
        proof {
            assert(self.roscas@[id as int].wf());
            assert(rosca_inv(s));
        }
        if matches!(self.roscas[id].phase, Phase::Active) {
            return Err(Error::RoscaAlreadyActive);
        }
        if self.roscas[id].positions.get(signer).is_some() {
            return Err(Error::AlreadyJoined);
        }
        if self.roscas[id].invited.get(signer).is_none() {
            return Err(Error::NotInvited);
        }
        if !matches!(self.roscas[id].phase, Phase::Pending) {
            return Err(Error::RoscaNotFound);
        }
        if self.now >= self.roscas[id].details.start_by_timestamp {
            return Err(Error::StartByTimestampMustBeFuture);
        }
        let slot: usize = match position {
            Some(p) => {
                if (p as usize) >= self.roscas[id].pending_order.len() {
                    return Err(Error::PositionTooLarge);
                }
                if self.roscas[id].pending_order[p as usize].is_some() {
                    return Err(Error::PositionAlreadyFilled);
                }
                p as usize
            },
            None => {
                match find_first_none(&self.roscas[id].pending_order) {
                    Some(i) => i,
                    None => {
                        return Err(Error::AllPositionsFilled);
                    },
                }
            },
        };
        proof {
            crate::rotation::lemma_first_none_char(s.pending_order);
        }
        if self.roscas[id].participants_count == u32::MAX {
            return Err(Error::ArithmeticOverflow);
        }
        let mut st = snapshot_rosca(&self.roscas[id]);
        st.pending_order[slot] = Some(signer);
        st.positions.insert(signer, slot as u32);
        st.participants_count = st.participants_count + 1;
        proof {
            let v = crate::model::spec_join(s, signer, position, pre.now)->Ok_0;
            assert(st@ =~= v);
            crate::rotation::lemma_num_filled_update(s.pending_order, slot as int, Some(signer));
            crate::rotation::lemma_num_filled_le(st@.pending_order);
            assert forall|a: u64| st@.positions.contains_key(a) implies 0 <= #[trigger] st@.positions[a]
                < st@.pending_order.len() && st@.pending_order[st@.positions[a] as int] == Some(
                a,
            ) by {
                if a != signer {
                    assert(s.positions.contains_key(a));
                }
            }
            assert(rosca_inv(st@));
        }
        self.roscas[id] = st;
        self.events.push(Event::JoinedRosca { rosca_id, contributor: signer });
        proof {
            let v = crate::model::spec_join(s, signer, position, pre.now)->Ok_0;
            assert(self.roscas@.map_values(|r2: RoscaState| r2@) =~= pre.roscas.update(
                id as int,
                v,
            ));
            assert(final(self)@ =~= (PalletV {
                roscas: pre.roscas.update(id as int, v),
                events: pre.events.push(Event::JoinedRosca { rosca_id, contributor: signer }),
                ..pre
            }));
        }
        Ok(())
    }

    /// Leaves a still-pending Rosca: the participant's slot is cleared and
    /// any security deposit is refunded in full.
    pub fn leave_rosca(&mut self, signer: u64, rosca_id: u32) -> (r: Result<(), Error>)
        requires
            old(self).wf(),
        ensures
            final(self).wf(),
            ({
                let pre = old(self)@;
                let post = final(self)@;
                if (rosca_id as int) < pre.roscas.len() {
                    let s = pre.roscas[rosca_id as int];
                    match crate::model::spec_leave(s, pre.balances, signer, pot_of(rosca_id)) {
                        Ok((v, b2)) => r == Ok::<(), Error>(()) && post =~= (PalletV {
                            roscas: pre.roscas.update(rosca_id as int, v),
                            balances: b2,
                            events: if crate::model::dep_of(s.deposits, signer) > 0 {
                                pre.events.push(
                                    Event::SecurityDepositClaimed { rosca_id, depositor: signer },
                                ).push(Event::LeftRosca { rosca_id, contributor: signer })
                            } else {
                                pre.events.push(Event::LeftRosca { rosca_id, contributor: signer })
                            },
                            ..pre
                        }),
                        Err(e) => r == Err::<(), Error>(e) && post == pre,
                    }
                } else {
                    r == Err::<(), Error>(Error::NotAParticipant) && post == pre
                }
            }),
    {
        let ghost pre = self@;
        let id = rosca_id as usize;
        if id >= self.roscas.len() {
            return Err(Error::NotAParticipant);
        }
        let ghost s = pre.roscas[id as int];
        proof {
            assert(self.roscas@[id as int].wf());
            assert(rosca_inv(s));
        }
        if matches!(self.roscas[id].phase, Phase::Active) {
            return Err(Error::RoscaAlreadyActive);
        }
        let idx: u32 = match self.roscas[id].positions.get(signer) {
            Some(p) => p,
            None => {
                return Err(Error::NotAParticipant);
            },
        };
        if !matches!(self.roscas[id].phase, Phase::Pending) {
            return Err(Error::RoscaNotFound);
        }
        if self.roscas[id].participants_count == 0 {
            return Err(Error::ArithmeticUnderflow);
        }
        let mut st = snapshot_rosca(&self.roscas[id]);
        let dep: u32 = match st.deposits.get(signer) {
            Some(d) => d,
            None => 0,
        };
        let mut led = self.ledger.snapshot();
        if dep > 0 {
            match led.transfer(Self::rosca_account_id(rosca_id), signer, dep as u128) {
                Ok(()) => {},
                Err(e) => {
                    return Err(e);
                },
            }
            st.deposits.remove(signer);
        }
        st.pending_order[idx as usize] = None;
        st.positions.remove(signer);
        st.participants_count = st.participants_count - 1;
        proof {
            let v = crate::model::spec_leave(s, pre.balances, signer, pot_of(rosca_id))->Ok_0.0;
            assert(st@ =~= v);
            crate::rotation::lemma_num_filled_update(s.pending_order, idx as int, None);
            assert forall|i: int|
                0 <= i < st@.pending_order.len() && st@.pending_order[i] is Some implies {
                let a = (#[trigger] st@.pending_order[i])->Some_0;
                st@.positions.contains_key(a) && st@.positions[a] == i
            } by {
                assert(s.pending_order[i] == st@.pending_order[i]);
                let a = st@.pending_order[i]->Some_0;
                assert(s.positions.contains_key(a) && s.positions[a] == i);
                assert(a != signer);
            }
            assert(rosca_inv(st@));
        }
        self.roscas[id] = st;
        self.ledger = led;
        if dep > 0 {
            self.events.push(Event::SecurityDepositClaimed { rosca_id, depositor: signer });
        }
        self.events.push(Event::LeftRosca { rosca_id, contributor: signer });
        proof {
            let v = crate::model::spec_leave(s, pre.balances, signer, pot_of(rosca_id))->Ok_0.0;
            assert(self.roscas@.map_values(|r2: RoscaState| r2@) =~= pre.roscas.update(
                id as int,
                v,
            ));
            assert(final(self)@ =~= (PalletV {
                roscas: pre.roscas.update(id as int, v),
                balances: final(self)@.balances,
                events: final(self)@.events,
                ..pre
            }));
        }
        Ok(())
    }

    /// Adds to a participant's security deposit on a Rosca that has not
    /// completed: the amount moves into the Rosca's escrow and is credited
    /// to the recorded deposit.
    pub fn add_to_security_deposit(&mut self, signer: u64, rosca_id: u32, amount: u32) -> (r:
        Result<(), Error>)
        requires
            old(self).wf(),
        ensures
            final(self).wf(),
            ({
                let pre = old(self)@;
                let post = final(self)@;
                if (rosca_id as int) < pre.roscas.len() {
                    match crate::model::spec_add_deposit(
                        pre.roscas[rosca_id as int],
                        pre.balances,
                        signer,
                        amount,
                        pot_of(rosca_id),
                    ) {
                        Ok((v, b2)) => r == Ok::<(), Error>(()) && post =~= (PalletV {
                            roscas: pre.roscas.update(rosca_id as int, v),
                            balances: b2,
                            events: pre.events.push(
                                Event::SecurityDepositContribution { rosca_id, depositor: signer },
                            ),
                            ..pre
                        }),
                        Err(e) => r == Err::<(), Error>(e) && post == pre,
                    }
                } else {
                    r == Err::<(), Error>(Error::NotAParticipant) && post == pre
                }
            }),
    {
        let ghost pre = self@;
        let id = rosca_id as usize;
        if id >= self.roscas.len() {
            return Err(Error::NotAParticipant);
        }
        let ghost s = pre.roscas[id as int];
        proof {
            assert(self.roscas@[id as int].wf());
            assert(rosca_inv(s));
        }
        if self.roscas[id].positions.get(signer).is_none() {
            return Err(Error::NotAParticipant);
        }
        if matches!(self.roscas[id].phase, Phase::Completed) {
            return Err(Error::RoscaAlreadyCompleted);
        }
        let mut led = self.ledger.snapshot();
        match led.transfer(signer, Self::rosca_account_id(rosca_id), amount as u128) {
            Ok(()) => {},
            Err(e) => {
                return Err(e);
            },
        }
        let dep: u32 = match self.roscas[id].deposits.get(signer) {
            Some(d) => d,
            None => 0,
        };
        if (dep as u64) + (amount as u64) > u32::MAX as u64 {
            return Err(Error::ArithmeticOverflow);
        }
        let mut st = snapshot_rosca(&self.roscas[id]);
        st.deposits.insert(signer, dep + amount);
        proof {
            let v = crate::model::spec_add_deposit(
                s,
                pre.balances,
                signer,
                amount,
                pot_of(rosca_id),
            )->Ok_0.0;
            assert(st@ =~= v);
            assert(rosca_inv(st@));
        }
        self.roscas[id] = st;
        self.ledger = led;
        self.events.push(Event::SecurityDepositContribution { rosca_id, depositor: signer });
        proof {
            let v = crate::model::spec_add_deposit(
                s,
                pre.balances,
                signer,
                amount,
                pot_of(rosca_id),
            )->Ok_0.0;
            assert(self.roscas@.map_values(|r2: RoscaState| r2@) =~= pre.roscas.update(
                id as int,
                v,
            ));
            assert(final(self)@ =~= (PalletV {
                roscas: pre.roscas.update(id as int, v),
                balances: final(self)@.balances,
                events: final(self)@.events,
                ..pre
            }));
        }
        Ok(())
    }

    /// Claims a security deposit back once the final pay-by deadline has
    /// passed and the Rosca is no longer active: the full recorded balance
    /// is returned and the record dropped.
    pub fn claim_security_deposit(&mut self, signer: u64, rosca_id: u32) -> (r: Result<(), Error>)
        requires
            old(self).wf(),
        ensures
            final(self).wf(),
            ({
                let pre = old(self)@;
                let post = final(self)@;
                if (rosca_id as int) < pre.roscas.len() {
                    match crate::model::spec_claim_deposit(
                        pre.roscas[rosca_id as int],
                        pre.balances,
                        signer,
                        pot_of(rosca_id),
                        pre.now,
                    ) {
                        Ok((v, b2)) => r == Ok::<(), Error>(()) && post =~= (PalletV {
                            roscas: pre.roscas.update(rosca_id as int, v),
                            balances: b2,
                            events: pre.events.push(
                                Event::SecurityDepositClaimed { rosca_id, depositor: signer },
                            ),
                            ..pre
                        }),
                        Err(e) => r == Err::<(), Error>(e) && post == pre,
                    }
                } else {
                    r == Err::<(), Error>(Error::FinalPayByTimestampNotFound) && post == pre
                }
            }),
    {
        let ghost pre = self@;
        let id = rosca_id as usize;
        if id >= self.roscas.len() {
            return Err(Error::FinalPayByTimestampNotFound);
        }
        let ghost s = pre.roscas[id as int];
        proof {
            assert(self.roscas@[id as int].wf());
            assert(rosca_inv(s));
        }
        if matches!(self.roscas[id].phase, Phase::Pending) {
            return Err(Error::FinalPayByTimestampNotFound);
        }
        if self.now <= self.roscas[id].final_pay_by {
            return Err(Error::FinalPayByTimestampMustBePast);
        }
        if matches!(self.roscas[id].phase, Phase::Active) {
            return Err(Error::RoscaStillActive);
        }
        let dep: u32 = match self.roscas[id].deposits.get(signer) {
            Some(d) => d,
            None => {
                return Err(Error::SecurityDepositNotFound);
            },
        };
        if dep == 0 {
            return Err(Error::SecurityDepositIsZero);
        }
        let mut led = self.ledger.snapshot();
        match led.transfer(Self::rosca_account_id(rosca_id), signer, dep as u128) {
            Ok(()) => {},
            Err(e) => {
                return Err(e);
            },
        }
        let mut st = snapshot_rosca(&self.roscas[id]);
        st.deposits.remove(signer);
        proof {
            let v = crate::model::spec_claim_deposit(
                s,
                pre.balances,
                signer,
                pot_of(rosca_id),
                pre.now,
            )->Ok_0.0;
            assert(st@ =~= v);
            assert(rosca_inv(st@));
        }
        self.roscas[id] = st;
        self.ledger = led;
        self.events.push(Event::SecurityDepositClaimed { rosca_id, depositor: signer });
        proof {
            let v = crate::model::spec_claim_deposit(
                s,
                pre.balances,
                signer,
                pot_of(rosca_id),
                pre.now,
            )->Ok_0.0;
            assert(self.roscas@.map_values(|r2: RoscaState| r2@) =~= pre.roscas.update(
                id as int,
                v,
            ));
            assert(final(self)@ =~= (PalletV {
                roscas: pre.roscas.update(id as int, v),
                balances: final(self)@.balances,
                events: final(self)@.events,
                ..pre
            }));
        }
        Ok(())
    }

    /// Shuffles a claim order, drawing one entropy byte per pick: each
    /// draw selects one of the remaining participants. The result is a
    /// permutation of the input.
    pub fn shuffle_participants(participants: &mut Vec<u64>, entropy: &Vec<u8>)
        ensures
            final(participants)@ == crate::rotation::spec_shuffle(
                old(participants)@,
                entropy@,
                0,
            ),
            final(participants)@.to_multiset() == old(participants)@.to_multiset(),
            final(participants)@.len() == old(participants)@.len(),
    {
        let ghost orig = participants@;
        let n = participants.len();
        let mut work = clone_vec_copy(participants);
        let mut out: Vec<u64> = Vec::new();
        let mut k: usize = 0;
        while work.len() > 0
            invariant
                k == out@.len(),
                k + work@.len() == n,
                crate::rotation::spec_shuffle(orig, entropy@, 0) == out@
                    + crate::rotation::spec_shuffle(work@, entropy@, k as int),
            decreases work@.len(),
        {
            let ghost work0 = work@;
            let len = work.len();
            let b: u8 = if k < entropy.len() {
                entropy[k]
            } else {
                0
            };
            proof {
                assert(b == crate::rotation::ent_byte(entropy@, k as int));
            }
            let j = (b as usize) % len;
            out.push(work[j]);
            work.remove(j);
            k = k + 1;
            proof {
                assert(crate::rotation::spec_shuffle(work0, entropy@, (k - 1) as int)
                    == seq![work0[j as int]] + crate::rotation::spec_shuffle(
                    work@,
                    entropy@,
                    k as int,
                ));
                assert(out@ + crate::rotation::spec_shuffle(work@, entropy@, k as int)
                    =~= out@.drop_last() + crate::rotation::spec_shuffle(
                    work0,
                    entropy@,
                    (k - 1) as int,
                ));
            }
        }
        proof {
            assert(crate::rotation::spec_shuffle(orig, entropy@, 0) =~= out@);
            crate::rotation::lemma_shuffle_permutes(orig, entropy@, 0);
        }
        *participants = out;
    }

    /// The full schedule of a starting Rosca, for observability only: one
    /// row per round, walking the pre-rotation order from its trailing
    /// element, each round's cutoff one frequency increment after the
    /// previous.
    pub fn generate_rounds(participants: Vec<u64>, current_time: u64, frequency: u64) -> (r:
        Result<Vec<RoundInfo>, Error>)
        ensures
            match r {
                Ok(v) => {
                    &&& participants@.len() <= MAX_PARTICIPANTS
                    &&& current_time as int + participants@.len() * frequency as int
                        <= u64::MAX as int
                    &&& v@.len() == participants@.len()
                    &&& forall|i: int|
                        0 <= i < v@.len() ==> round_matches(
                            #[trigger] v@[i],
                            participants@,
                            current_time,
                            frequency,
                            i,
                        )
                },
                Err(e) => if participants@.len() > MAX_PARTICIPANTS {
                    e == Error::TooManyProposedParticipants
                } else {
                    e == Error::ArithmeticOverflow && current_time as int + participants@.len()
                        * frequency as int > u64::MAX as int
                },
            },
    {
        let n = participants.len();
        if n > MAX_PARTICIPANTS as usize {
            return Err(Error::TooManyProposedParticipants);
        }
        proof {
            assert((n as u128) * (frequency as u128) <= 150u128 * (u64::MAX as u128))
                by (nonlinear_arith)
                requires
                    n as u128 <= 150u128,
                    frequency as u128 <= u64::MAX as u128,
            ;
        }
        if (current_time as u128) + (n as u128) * (frequency as u128) > u64::MAX as u128 {
            return Err(Error::ArithmeticOverflow);
        }
        let mut rounds: Vec<RoundInfo> = Vec::new();
        let mut payment_cutoff: u64 = current_time;
        let mut i: usize = 0;
        while i < n
            invariant
                n == participants@.len(),
                n <= MAX_PARTICIPANTS,
                0 <= i <= n,
                current_time as int + n as int * frequency as int <= u64::MAX as int,
                payment_cutoff as int == current_time as int + i as int * frequency as int,
                rounds@.len() == i,
                forall|j: int|
                    0 <= j < i ==> round_matches(
                        #[trigger] rounds@[j],
                        participants@,
                        current_time,
                        frequency,
                        j,
                    ),
            decreases n - i,
    {
            let recipient = participants[n - 1 - i];
            let expected_contributors = others_of(&participants, recipient);
            rounds.push(
                RoundInfo {
                    round_number: (i as u32) + 1,
                    payment_cutoff,
                    expected_contributors,
                    recipient,
                },
            );
            proof {
                vstd::arithmetic::mul::lemma_mul_inequality(
                    i + 1 as int,
                    n as int,
                    frequency as int,
                );
                vstd::arithmetic::mul::lemma_mul_is_distributive_add_other_way(
                    frequency as int,
                    i as int,
                    1int,
                );
                vstd::arithmetic::mul::lemma_mul_basics(frequency as int);
            }
            proof {
                assert(round_matches(
                    rounds@[i as int],
                    participants@,
                    current_time,
                    frequency,
                    i as int,
                ));
            }
            payment_cutoff = payment_cutoff + frequency;
            i = i + 1;
        }
        Ok(rounds)
    }

    /// Starts a pending Rosca whose participant threshold is met before
    /// the start-by deadline: the pending order is reversed and compacted,
    /// optionally shuffled from the injected entropy, the trailing member
    /// becomes the first eligible claimant, the order rotates right by
    /// one, and the pay-by deadlines are fixed.
    pub fn start_rosca(&mut self, signer: u64, rosca_id: u32) -> (r: Result<(), Error>)
        requires
            old(self).wf(),
        ensures
            final(self).wf(),
            ({
                let pre = old(self)@;
                let post = final(self)@;
                if (rosca_id as int) < pre.roscas.len() {
                    match crate::model::spec_start(
                        pre.roscas[rosca_id as int],
                        signer,
                        pre.now,
                        pre.entropy,
                    ) {
                        Ok(v) => {
                            &&& r == Ok::<(), Error>(())
                            &&& post =~= (PalletV {
                                roscas: pre.roscas.update(rosca_id as int, v),
                                events: post.events,
                                ..pre
                            })
                            &&& post.events.len() == pre.events.len() + 1
                            &&& pre.events.is_prefix_of(post.events)
                            &&& (post.events.last() matches Event::RoscaStarted {
                                rosca_id: rid,
                                started_by,
                                rounds,
                            } && rid == rosca_id && started_by == signer && ({
                                let s = pre.roscas[rosca_id as int];
                                let base = crate::rotation::rev_filled(s.pending_order);
                                let ordered = if s.random_order {
                                    crate::rotation::spec_shuffle(base, pre.entropy, 0)
                                } else {
                                    base
                                };
                                &&& rounds@.len() == ordered.len()
                                &&& forall|i: int|
                                    0 <= i < rounds@.len() ==> round_matches(
                                        #[trigger] rounds@[i],
                                        ordered,
                                        pre.now,
                                        s.contribution_frequency,
                                        i,
                                    )
                            }))
                        },
                        Err(e) => r == Err::<(), Error>(e) && post == pre,
                    }
                } else {
                    r == Err::<(), Error>(Error::NotAParticipant) && post == pre
                }
            }),
    {
        let ghost pre = self@;
        let id = rosca_id as usize;
        if id >= self.roscas.len() {
            return Err(Error::NotAParticipant);
        }
        let ghost s = pre.roscas[id as int];
        proof {
            assert(self.roscas@[id as int].wf());
            assert(rosca_inv(s));
        }
        if matches!(self.roscas[id].phase, Phase::Active) {
            return Err(Error::RoscaAlreadyActive);
        }
        if self.roscas[id].positions.get(signer).is_none() {
            return Err(Error::NotAParticipant);
        }
        if !matches!(self.roscas[id].phase, Phase::Pending) {
            return Err(Error::RoscaNotFound);
        }
        if self.now >= self.roscas[id].details.start_by_timestamp {
            return Err(Error::StartByTimestampMustBeFuture);
        }
        if self.roscas[id].participants_count
            < self.roscas[id].details.minimum_participant_threshold {
            return Err(Error::ParticipantThresholdNotMet);
        }
        let mut ordered = reversed_filled(&self.roscas[id].pending_order);
        proof {
            crate::rotation::lemma_rev_filled_len(s.pending_order);
            crate::rotation::lemma_num_filled_le(s.pending_order);
            assert forall|i: int, j: int| #![trigger s.pending_order[i], s.pending_order[j]]
                0 <= i < j < s.pending_order.len() && s.pending_order[i] is Some implies s.pending_order[i]
                != s.pending_order[j] by {
                if s.pending_order[j] is Some {
                    let a = s.pending_order[i]->Some_0;
                    let b = s.pending_order[j]->Some_0;
                    if a == b {
                        assert(s.positions[a] == i && s.positions[b] == j);
                    }
                }
            }
            crate::rotation::lemma_rev_filled_no_duplicates(s.pending_order);
        }
        if ordered.len() > MAX_PARTICIPANTS as usize {
            return Err(Error::TooManyProposedParticipants);
        }
        if self.roscas[id].details.random_order {
            Self::shuffle_participants(&mut ordered, &self.entropy);
            proof {
                crate::rotation::lemma_permutation_no_duplicates(
                    crate::rotation::rev_filled(s.pending_order),
                    ordered@,
                );
            }
        }
        let ghost ordered_spec = ordered@;
        proof {
            assert(ordered_spec.len() == s.participants_count);
        }
        let rounds = match Self::generate_rounds(
            clone_vec_copy(&ordered),
            self.now,
            self.roscas[id].details.contribution_frequency,
        ) {
            Ok(v) => v,
            Err(e) => {
                proof {
                    vstd::arithmetic::mul::lemma_mul_basics(
                        self.roscas@[id as int].details.contribution_frequency as int,
                    );
                    if ordered_spec.len() == 0 {
                        assert(ordered_spec.len() * self.roscas@[id as int]@.contribution_frequency
                            as int == 0);
                    }
                }
                return Err(e);
            },
        };
        if ordered.is_empty() {
            return Err(Error::ArithmeticError);
        }
        let claimant = ordered[ordered.len() - 1];
        rotate_right_one(&mut ordered);
        let freq = self.roscas[id].details.contribution_frequency;
        proof {
            vstd::arithmetic::mul::lemma_mul_inequality(
                1int,
                ordered_spec.len() as int,
                freq as int,
            );
        }
        let next_pay_by: u64 = self.now + freq;
        let final_pay_by: u64 = ((self.now as u128) + (ordered.len() as u128) * (freq as u128))
            as u64;
        let mut st = snapshot_rosca(&self.roscas[id]);
        st.phase = Phase::Active;
        st.active_order = ordered;
        st.eligible_claimant = claimant;
        st.next_pay_by = next_pay_by;
        st.final_pay_by = final_pay_by;
        proof {
            let v = crate::model::spec_start(s, signer, pre.now, pre.entropy)->Ok_0;
            crate::rotation::lemma_rotated_right(ordered_spec);
            assert(st@ =~= v);
            vstd::arithmetic::div_mod::lemma_mod_multiples_basic(
                ordered_spec.len() - 1,
                freq as int,
            );
            vstd::arithmetic::mul::lemma_mul_is_distributive_sub_other_way(
                freq as int,
                ordered_spec.len() as int,
                1int,
            );
            vstd::arithmetic::mul::lemma_mul_basics(freq as int);
            assert((st@.final_pay_by - st@.next_pay_by) == (ordered_spec.len() - 1) * freq as int);
            assert(rosca_inv(st@));
        }
        self.roscas[id] = st;
        self.events.push(Event::RoscaStarted { rosca_id, started_by: signer, rounds });
        proof {
            let v = crate::model::spec_start(s, signer, pre.now, pre.entropy)->Ok_0;
            assert(self.roscas@.map_values(|r2: RoscaState| r2@) =~= pre.roscas.update(
                id as int,
                v,
            ));
            assert(final(self)@ =~= (PalletV {
                roscas: pre.roscas.update(id as int, v),
                events: final(self)@.events,
                ..pre
            }));
        }
        Ok(())
    }

    /// Contributes to the current round of an active Rosca. Elapsed rounds
    /// are first settled from deposits (catch-up); the eligible claimant in
    /// force afterwards — catch-up may have rotated eligibility — must not
    /// be the caller; then the contribution amount moves to that claimant
    /// and the contribution is marked. When the contribution is the
    /// round's last, the round completes inline: the Rosca either becomes
    /// completed or rotates into the next round. All-or-nothing: on any
    /// error the whole state is unchanged.
    pub fn contribute_to_rosca(&mut self, signer: u64, rosca_id: u32) -> (r: Result<(), Error>)
        requires
            old(self).wf(),
        ensures
            final(self).wf(),
            ({
                let pre = old(self)@;
                let post = final(self)@;
                if (rosca_id as int) < pre.roscas.len() {
                    match crate::model::spec_contribute(
                        pre.roscas[rosca_id as int],
                        pre.balances,
                        signer,
                        pre.now,
                        pot_of(rosca_id),
                    ) {
                        Ok((v, b2)) => {
                            &&& r == Ok::<(), Error>(())
                            &&& post =~= (PalletV {
                                roscas: pre.roscas.update(rosca_id as int, v),
                                balances: b2,
                                events: post.events,
                                ..pre
                            })
                            &&& post.events == pre.events + crate::model::spec_contribute_events(
                                pre.roscas[rosca_id as int],
                                pre.balances,
                                signer,
                                pre.now,
                                pot_of(rosca_id),
                                rosca_id,
                            )
                        },
                        Err(e) => r == Err::<(), Error>(e) && post == pre,
                    }
                } else {
                    r == Err::<(), Error>(Error::NotAParticipant) && post == pre
                }
            }),
    {
        let ghost pre = self@;
        let id = rosca_id as usize;
        if id >= self.roscas.len() {
            return Err(Error::NotAParticipant);
        }
        let ghost s = pre.roscas[id as int];
        proof {
            assert(self.roscas@[id as int].wf());
            assert(rosca_inv(s));
        }
        if self.roscas[id].positions.get(signer).is_none() {
            return Err(Error::NotAParticipant);
        }
        if matches!(self.roscas[id].phase, Phase::Completed) {
            return Err(Error::RoscaAlreadyCompleted);
        }
        if !matches!(self.roscas[id].phase, Phase::Active) {
            return Err(Error::RoscaNotActive);
        }
        if self.roscas[id].eligible_claimant == signer {
            return Err(Error::CantContributeToSelf);
        }
        if self.roscas[id].current_contributors.get(signer).is_some() {
            return Err(Error::AlreadyContributed);
        }
        let now = self.now;
        let amount = self.roscas[id].details.contribution_amount;
        let pot = Self::rosca_account_id(rosca_id);
        let mut st = snapshot_rosca(&self.roscas[id]);
        let mut led = self.ledger.snapshot();
        let mut ev: Vec<Event> = Vec::new();
        let ghost b0 = pre.balances;
        proof {
            assert(crate::model::spec_catch_up_events(s, b0, pot, now, rosca_id) =~= ev@
                + crate::model::spec_catch_up_events(st@, led@, pot, now, rosca_id));
        }
        while now >= st.next_pay_by
            invariant
                st.wf(),
                led.wf(),
                rosca_inv(st@),
                st@.phase is Active || (st@.phase is Completed && st@.next_pay_by
                    > st@.final_pay_by),
                st@.contribution_frequency == s.contribution_frequency,
                st@.contribution_amount == s.contribution_amount,
                st@.final_pay_by == s.final_pay_by,
                st@.positions == s.positions,
                st@.active_order.len() == s.active_order.len(),
                s.contribution_frequency >= 1,
                rosca_inv(s),
                s.positions.contains_key(signer),
                s.phase is Active,
                s.eligible_claimant != signer,
                !s.marks.contains(signer),
                amount == s.contribution_amount,
                pot == pot_of(rosca_id),
                now == pre.now,
                b0 == pre.balances,
                s == pre.roscas[rosca_id as int],
                (rosca_id as int) < pre.roscas.len(),
                self == old(self),
                pre == old(self)@,
                self.wf(),
                crate::model::spec_catch_up(s, b0, pot, now) == crate::model::spec_catch_up(
                    st@,
                    led@,
                    pot,
                    now,
                ),
                crate::model::spec_catch_up_events(s, b0, pot, now, rosca_id) == ev@
                    + crate::model::spec_catch_up_events(st@, led@, pot, now, rosca_id),
            decreases
                    (if st@.next_pay_by <= now {
                        now - st@.next_pay_by + 1
                    } else {
                        0int
                    }),
        {
            if !matches!(st.phase, Phase::Active) {
                return Err(Error::RoscaNotActive);
            }
            let ghost sa = st@;
            let ghost ba = led@;
            let ghost ev_a = ev@;
            match settle_round_exec(&mut st, &mut led, &mut ev, rosca_id) {
                Ok(()) => {},
                Err(e) => {
                    proof {
                        assert(crate::model::spec_catch_up(sa, ba, pot, now) == Err::<
                            (RoscaV, Map<u64, u128>),
                            Error,
                        >(e));
                    }
                    return Err(e);
                },
            }
            let ghost mid = st@;
            if st.next_pay_by > st.final_pay_by {
                st.phase = Phase::Completed;
                ev.push(Event::RoscaComplete { rosca_id });
            }
            proof {
                assert(st@ =~= crate::model::spec_complete_check(mid));
                assert(crate::model::spec_catch_up(sa, ba, pot, now)
                    == crate::model::spec_catch_up(st@, led@, pot, now));
                assert(crate::model::spec_settle_round(sa, ba, pot) == Ok::<
                    (RoscaV, Map<u64, u128>),
                    Error,
                >((mid, led@)));
                assert(ev@.skip(ev_a.len() as int) =~= crate::model::spec_settle_round_events(
                    sa,
                    ba,
                    pot,
                    rosca_id,
                ) + (if mid.next_pay_by > mid.final_pay_by {
                    seq![Event::RoscaComplete { rosca_id }]
                } else {
                    Seq::<Event>::empty()
                }));
                assert(crate::model::spec_catch_up_events(sa, ba, pot, now, rosca_id) =~= ev@.skip(
                    ev_a.len() as int,
                ) + crate::model::spec_catch_up_events(st@, led@, pot, now, rosca_id));
                assert(crate::model::spec_catch_up_events(s, b0, pot, now, rosca_id) =~= ev@
                    + crate::model::spec_catch_up_events(st@, led@, pot, now, rosca_id)) by {
                    assert(ev_a + ev@.skip(ev_a.len() as int) =~= ev@);
                }
                crate::rotation::lemma_rotated_right(sa.active_order);
                vstd::arithmetic::div_mod::lemma_mod_multiples_vanish(
                    -1int,
                    sa.final_pay_by - sa.next_pay_by,
                    sa.contribution_frequency as int,
                );
                assert(rosca_inv(st@));
            }
        }
        proof {
            assert(crate::model::spec_catch_up(s, b0, pot, now) == Ok::<
                (RoscaV, Map<u64, u128>),
                Error,
            >((st@, led@)));
        }
        let ghost s1 = st@;
        let ghost b1 = led@;
        let claimant = st.eligible_claimant;
        if claimant == signer {
            return Err(Error::CantContributeToSelf);
        }
        match led.transfer(signer, claimant, amount as u128) {
            Ok(()) => {},
            Err(e) => {
                return Err(e);
            },
        }
        if st.current_contribution_count == u32::MAX {
            return Err(Error::ArithmeticOverflow);
        }
        st.current_contributors.insert(signer, ());
        st.current_contribution_count = st.current_contribution_count + 1;
        ev.push(
            Event::ContributionMade {
                rosca_id,
                contributor: signer,
                recipient: claimant,
                amount: amount as u128,
            },
        );
        let len = st.active_order.len();
        proof {
            assert(len >= 1);
            assert(len == s1.participants_count);
        }
        if st.current_contribution_count == (len - 1) as u32 {
            let freq = st.details.contribution_frequency;
            if st.next_pay_by > u64::MAX - freq {
                return Err(Error::ArithmeticOverflow);
            }
            let next2 = st.next_pay_by + freq;
            if next2 > st.final_pay_by {
                st.phase = Phase::Completed;
                ev.push(Event::RoscaComplete { rosca_id });
            } else {
                st.next_pay_by = next2;
                let new_claimant = st.active_order[len - 1];
                st.eligible_claimant = new_claimant;
                rotate_right_one(&mut st.active_order);
                st.current_contributors.clear();
                st.current_contribution_count = 0;
                ev.push(Event::NewRoundStarted { rosca_id, new_eligible_recipient: new_claimant });
                proof {
                    crate::rotation::lemma_rotated_right(s1.active_order);
                    vstd::arithmetic::div_mod::lemma_mod_multiples_vanish(
                        -1int,
                        s1.final_pay_by - s1.next_pay_by,
                        s1.contribution_frequency as int,
                    );
                }
            }
        }
        proof {
            let pair = crate::model::spec_contribute(s, b0, signer, now, pot)->Ok_0;
            assert(st@ =~= pair.0);
            assert(led@ == pair.1);
            assert(rosca_inv(st@));
        }
        self.roscas[id] = st;
        self.ledger = led;
        push_all(&mut self.events, ev);
        proof {
            let pair = crate::model::spec_contribute(s, b0, signer, now, pot)->Ok_0;
            assert(self.roscas@.map_values(|r2: RoscaState| r2@) =~= pre.roscas.update(
                id as int,
                pair.0,
            ));
            assert(final(self)@ =~= (PalletV {
                roscas: pre.roscas.update(id as int, pair.0),
                balances: final(self)@.balances,
                events: final(self)@.events,
                ..pre
            }));
        }
        Ok(())
    }

    /// Manually ends an active Rosca whose final pay-by deadline has
    /// passed: every outstanding round is settled from deposits, the
    /// deadline is checked to rest exactly one increment past the final
    /// one, and the Rosca becomes completed.
    pub fn manually_end_rosca(&mut self, signer: u64, rosca_id: u32) -> (r: Result<(), Error>)
        requires
            old(self).wf(),
        ensures
            final(self).wf(),
            ({
                let pre = old(self)@;
                let post = final(self)@;
                if (rosca_id as int) < pre.roscas.len() {
                    match crate::model::spec_manual_end(
                        pre.roscas[rosca_id as int],
                        pre.balances,
                        pot_of(rosca_id),
                        pre.now,
                    ) {
                        Ok((v, b2)) => {
                            &&& r == Ok::<(), Error>(())
                            &&& post =~= (PalletV {
                                roscas: pre.roscas.update(rosca_id as int, v),
                                balances: b2,
                                events: post.events,
                                ..pre
                            })
                            &&& post.events == pre.events
                                + crate::model::spec_manual_end_events(
                                pre.roscas[rosca_id as int],
                                pre.balances,
                                pot_of(rosca_id),
                                rosca_id,
                            )
                        },
                        Err(e) => r == Err::<(), Error>(e) && post == pre,
                    }
                } else {
                    r == Err::<(), Error>(Error::RoscaNotActive) && post == pre
                }
            }),
    {
        let ghost pre = self@;
        let id = rosca_id as usize;
        if id >= self.roscas.len() {
            return Err(Error::RoscaNotActive);
        }
        let ghost s = pre.roscas[id as int];
        proof {
            assert(self.roscas@[id as int].wf());
            assert(rosca_inv(s));
        }
        if !matches!(self.roscas[id].phase, Phase::Active) {
            return Err(Error::RoscaNotActive);
        }
        if self.now <= self.roscas[id].final_pay_by {
            return Err(Error::FinalPayByTimestampMustBePast);
        }
        let pot = Self::rosca_account_id(rosca_id);
        let freq = self.roscas[id].details.contribution_frequency;
        let mut st = snapshot_rosca(&self.roscas[id]);
        let mut led = self.ledger.snapshot();
        let mut ev: Vec<Event> = Vec::new();
        let ghost b0 = pre.balances;
        proof {
            vstd::arithmetic::div_mod::lemma_mod_multiples_vanish(
                1int,
                s.final_pay_by - s.next_pay_by,
                freq as int,
            );
            assert(crate::model::spec_settle_till_final_events(s, b0, pot, rosca_id) =~= ev@
                + crate::model::spec_settle_till_final_events(st@, led@, pot, rosca_id));
        }
        while st.next_pay_by <= st.final_pay_by
            invariant
                st.wf(),
                led.wf(),
                st@.phase is Active,
                crate::state::started_inv(st@),
                st@.contribution_frequency == freq,
                st@.final_pay_by == s.final_pay_by,
                st@.positions == s.positions,
                st@.participants_count == s.participants_count,
                freq == s.contribution_frequency,
                freq >= 1,
                rosca_inv(s),
                s.phase is Active,
                pot == pot_of(rosca_id),
                b0 == pre.balances,
                s == pre.roscas[rosca_id as int],
                (rosca_id as int) < pre.roscas.len(),
                self == old(self),
                pre == old(self)@,
                self.wf(),
                pre.now > s.final_pay_by,
                st@.next_pay_by as int <= s.final_pay_by as int + freq as int,
                (s.final_pay_by as int + freq as int - st@.next_pay_by as int) % (
                freq as int) == 0,
                st@.contribution_amount == s.contribution_amount,
                st@.number_of_participants == s.number_of_participants,
                st@.minimum_participant_threshold == s.minimum_participant_threshold,
                crate::model::spec_settle_till_final(s, b0, pot)
                    == crate::model::spec_settle_till_final(st@, led@, pot),
                crate::model::spec_settle_till_final_events(s, b0, pot, rosca_id) == ev@
                    + crate::model::spec_settle_till_final_events(st@, led@, pot, rosca_id),
            decreases s.final_pay_by as int + freq as int - st@.next_pay_by as int,
        {
            let ghost sa = st@;
            let ghost ba = led@;
            let ghost ev_a = ev@;
            match settle_round_exec(&mut st, &mut led, &mut ev, rosca_id) {
                Ok(()) => {},
                Err(e) => {
                    proof {
                        assert(crate::model::spec_settle_till_final(sa, ba, pot) == Err::<
                            (RoscaV, Map<u64, u128>),
                            Error,
                        >(e));
                    }
                    return Err(e);
                },
            }
            proof {
                assert(crate::model::spec_settle_till_final(sa, ba, pot)
                    == crate::model::spec_settle_till_final(st@, led@, pot));
                assert(crate::model::spec_settle_round(sa, ba, pot) == Ok::<
                    (RoscaV, Map<u64, u128>),
                    Error,
                >((st@, led@)));
                assert(ev@.skip(ev_a.len() as int) =~= crate::model::spec_settle_round_events(
                    sa,
                    ba,
                    pot,
                    rosca_id,
                ));
                assert(crate::model::spec_settle_till_final_events(sa, ba, pot, rosca_id)
                    =~= ev@.skip(ev_a.len() as int) + crate::model::spec_settle_till_final_events(
                    st@,
                    led@,
                    pot,
                    rosca_id,
                ));
                assert(crate::model::spec_settle_till_final_events(s, b0, pot, rosca_id) =~= ev@
                    + crate::model::spec_settle_till_final_events(st@, led@, pot, rosca_id)) by {
                    assert(ev_a + ev@.skip(ev_a.len() as int) =~= ev@);
                }
                crate::rotation::lemma_rotated_right(sa.active_order);
                vstd::arithmetic::div_mod::lemma_mod_multiples_vanish(
                    -1int,
                    s.final_pay_by as int + freq as int - sa.next_pay_by as int,
                    freq as int,
                );
            }
        }
        proof {
            assert(crate::model::spec_settle_till_final(s, b0, pot) == Ok::<
                (RoscaV, Map<u64, u128>),
                Error,
            >((st@, led@)));
            vstd::arithmetic::div_mod::lemma_small_mod(
                (s.final_pay_by as int + freq as int - st@.next_pay_by as int) as nat,
                freq as nat,
            );
            assert(st@.next_pay_by as int == s.final_pay_by as int + freq as int);
        }
        if !((st.next_pay_by as u128) == (st.final_pay_by as u128) + (freq as u128)) {
            return Err(Error::ArithmeticError);
        }
        st.phase = Phase::Completed;
        ev.push(Event::RoscaComplete { rosca_id });
        proof {
            let pair = crate::model::spec_manual_end(s, b0, pot, pre.now)->Ok_0;
            assert(st@ =~= pair.0);
            assert(led@ == pair.1);
            assert(rosca_inv(st@));
        }
        self.roscas[id] = st;
        self.ledger = led;
        push_all(&mut self.events, ev);
        proof {
            let pair = crate::model::spec_manual_end(s, b0, pot, pre.now)->Ok_0;
            assert(self.roscas@.map_values(|r2: RoscaState| r2@) =~= pre.roscas.update(
                id as int,
                pair.0,
            ));
            assert(final(self)@ =~= (PalletV {
                roscas: pre.roscas.update(id as int, pair.0),
                balances: final(self)@.balances,
                events: final(self)@.events,
                ..pre
            }));
        }
        Ok(())
    }

    /// Creates a Rosca: validates the configuration, registers the invited
    /// set (deduplicated, the creator included), and seeds the pending
    /// order with the creator at its chosen position. The new Rosca takes
    /// the next id.
    pub fn create_rosca(
        &mut self,
        signer: u64,
        random_order: bool,
        invited_pre_verified_participants: Vec<u64>,
        minimum_participant_threshold: u32,
        contribution_amount: u32,
        payment_asset: PaymentAssets,
        contribution_frequency: u64,
        start_by_timestamp: u64,
        position: Option<u32>,
        name: Vec<u8>,
    ) -> (r: Result<(), Error>)
        requires
            old(self).wf(),
        ensures
            final(self).wf(),
            ({
                let pre = old(self)@;
                let post = final(self)@;
                match crate::model::spec_create(
                    signer,
                    random_order,
                    invited_pre_verified_participants@,
                    minimum_participant_threshold,
                    contribution_amount,
                    payment_asset,
                    contribution_frequency,
                    start_by_timestamp,
                    position,
                    name@,
                    pre.now,
                ) {
                    Err(e) => r == Err::<(), Error>(e) && post == pre,
                    Ok(v) => if pre.next_rosca_id == u32::MAX {
                        r == Err::<(), Error>(Error::ArithmeticOverflow) && post == pre
                    } else {
                        &&& r == Ok::<(), Error>(())
                        &&& post =~= (PalletV {
                            next_rosca_id: (pre.next_rosca_id + 1) as u32,
                            roscas: pre.roscas.push(v),
                            events: post.events,
                            ..pre
                        })
                        &&& post.events.len() == pre.events.len() + 1
                        &&& pre.events.is_prefix_of(post.events)
                        &&& (post.events.last() matches Event::RoscaCreated {
                            rosca_id,
                            number_of_participants,
                            eligible_participants,
                            creator,
                            ..
                        } && rosca_id == pre.next_rosca_id && creator == signer
                            && number_of_participants == v.number_of_participants
                            && eligible_participants@.len()
                            == invited_pre_verified_participants@.to_set().len() + 1
                            && eligible_participants@[0] == signer && (forall|i: int, j: int|
                            1 <= i < j < eligible_participants@.len()
                                ==> eligible_participants@[i] < eligible_participants@[j]) && (
                        forall|i: int|
                            1 <= i < eligible_participants@.len()
                                ==> invited_pre_verified_participants@.contains(
                                eligible_participants@[i],
                            )) && (forall|x: u64|
                            invited_pre_verified_participants@.contains(x)
                                ==> eligible_participants@.subrange(
                                1,
                                eligible_participants@.len() as int,
                            ).contains(x)))
                    },
                }
            }),
    {
        let ghost pre = self@;
        if contribution_amount == 0 {
            return Err(Error::ContributionAmountMustBePositive);
        }
        if contribution_frequency == 0 {
            return Err(Error::FrequencyMustBePositive);
        }
        if vec_contains(&invited_pre_verified_participants, signer) {
            return Err(Error::CantInviteSelf);
        }
        let deduped = dedup_vec(&invited_pre_verified_participants);
        proof {
            crate::rotation::lemma_dedup_first(invited_pre_verified_participants@);
        }
        let pos: u32 = match position {
            Some(p) => p,
            None => 0,
        };
        let ghost n_spec = invited_pre_verified_participants@.to_set().len() + 1;
        proof {
            assert(deduped@.len() == n_spec - 1);
        }
        if (minimum_participant_threshold as u128) > (deduped.len() as u128) + 1 {
            return Err(Error::ThresholdTooHigh);
        }
        if pos >= MAX_PARTICIPANTS {
            return Err(Error::PositionTooLarge);
        }
        if self.now >= start_by_timestamp {
            return Err(Error::StartByTimestampMustBeFuture);
        }
        if (deduped.len() as u128) + 1 > MAX_PARTICIPANTS as u128 {
            return Err(Error::TooManyProposedParticipants);
        }
        if (pos as u128) >= (deduped.len() as u128) + 1 {
            return Err(Error::PositionTooLarge);
        }
        let n: u32 = (deduped.len() as u32) + 1;
        if self.next_rosca_id == u32::MAX {
            return Err(Error::ArithmeticOverflow);
        }

        // Seed the pending order: one slot per participant, the creator at
        // its chosen position.
        let mut pending_order: Vec<Option<u64>> = Vec::new();
        let mut i: usize = 0;
        while i < n as usize
            invariant
                0 <= i <= n,
                pending_order@.len() == i,
                forall|j: int| 0 <= j < i ==> pending_order@[j] is None,
            decreases n as int - i,
        {
            pending_order.push(None);
            i = i + 1;
        }
        pending_order[pos as usize] = Some(signer);

        // Register the invited set, the creator included.
        let mut invited: UMap<()> = UMap::new();
        invited.insert(signer, ());
        let mut k: usize = 0;
        while k < deduped.len()
            invariant
                0 <= k <= deduped@.len(),
                invited.wf(),
                invited@.dom() =~= deduped@.subrange(0, k as int).to_set().insert(signer),
            decreases deduped@.len() - k,
        {
            invited.insert(deduped[k], ());
            proof {
                assert(deduped@.subrange(0, k + 1 as int) =~= deduped@.subrange(
                    0,
                    k as int,
                ).push(deduped@[k as int]));
                crate::rotation::lemma_to_set_push(deduped@.subrange(0, k as int), deduped@[k as int]);
            }
            k = k + 1;
        }
        proof {
            assert(deduped@.subrange(0, deduped@.len() as int) =~= deduped@);
            assert forall|x: u64|
                deduped@.to_set().contains(x) <==> invited_pre_verified_participants@.to_set().contains(
                    x,
                ) by {
                assert(deduped@.contains(x) <==> invited_pre_verified_participants@.contains(x));
            }
            assert(deduped@.to_set() =~= invited_pre_verified_participants@.to_set());
        }

        let mut positions: UMap<u32> = UMap::new();
        positions.insert(signer, pos);

        let st = RoscaState {
            details: RoscaDetails {
                random_order,
                number_of_participants: n,
                minimum_participant_threshold,
                contribution_amount,
                payment_asset,
                contribution_frequency,
                start_by_timestamp,
                name: clone_vec_copy(&name),
            },
            phase: Phase::Pending,
            pending_order,
            invited,
            positions,
            participants_count: 1,
            deposits: UMap::new(),
            active_order: Vec::new(),
            eligible_claimant: 0,
            next_pay_by: 0,
            final_pay_by: 0,
            current_contributors: UMap::new(),
            current_contribution_count: 0,
            default_counts: UMap::new(),
        };
        let ghost v = crate::model::spec_create(
            signer,
            random_order,
            invited_pre_verified_participants@,
            minimum_participant_threshold,
            contribution_amount,
            payment_asset,
            contribution_frequency,
            start_by_timestamp,
            position,
            name@,
            pre.now,
        )->Ok_0;
        proof {
            assert(st@.pending_order =~= v.pending_order);
            assert(st@ =~= v);
            crate::rotation::lemma_num_filled_singleton(st@.pending_order, pos as int);
            assert(rosca_inv(st@));
        }

        // Publish the creation: the creator first, then the invited set in
        // normalized (sorted, deduplicated) order.
        let sorted = sort_distinct(clone_vec_copy(&deduped));
        let mut eligible: Vec<u64> = Vec::new();
        eligible.push(signer);
        let mut q: usize = 0;
        while q < sorted.len()
            invariant
                0 <= q <= sorted@.len(),
                eligible@ =~= seq![signer] + sorted@.subrange(0, q as int),
            decreases sorted@.len() - q,
        {
            eligible.push(sorted[q]);
            proof {
                assert(eligible@ =~= seq![signer] + sorted@.subrange(0, q + 1 as int));
            }
            q = q + 1;
        }
        proof {
            broadcast use vstd::seq_lib::group_to_multiset_ensures;

            assert(eligible@ =~= seq![signer] + sorted@);
            assert(eligible@.subrange(1, eligible@.len() as int) =~= sorted@);
            assert(sorted@.len() == deduped@.len()) by {
                assert(sorted@.to_multiset().len() == sorted@.len());
                assert(deduped@.to_multiset().len() == deduped@.len());
            }
            crate::rotation::lemma_dedup_first(invited_pre_verified_participants@);
            assert forall|x: u64| sorted@.contains(x) <==> deduped@.contains(x) by {
                assert(sorted@.contains(x) <==> sorted@.to_multiset().count(x) > 0);
                assert(deduped@.contains(x) <==> deduped@.to_multiset().count(x) > 0);
            }
        }
        let rosca_id = self.next_rosca_id;
        self.events.push(
            Event::RoscaCreated {
                rosca_id,
                contribution_amount: contribution_amount as u128,
                contribution_frequency,
                random_order,
                name,
                number_of_participants: n,
                minimum_participant_threshold,
                start_by_timestamp,
                eligible_participants: eligible,
                creator: signer,
            },
        );
        self.roscas.push(st);
        self.next_rosca_id = rosca_id + 1;
        proof {
            assert(self.roscas@.map_values(|r2: RoscaState| r2@) =~= pre.roscas.push(v));
            assert(final(self)@ =~= (PalletV {
                next_rosca_id: (pre.next_rosca_id + 1) as u32,
                roscas: pre.roscas.push(v),
                events: final(self)@.events,
                ..pre
            }));
        }
        Ok(())
    }
}

/// The first empty slot of a pending order, if any.
fn find_first_none(v: &Vec<Option<u64>>) -> (r: Option<usize>)
    ensures
        match r {
            Some(i) => crate::rotation::first_none(v@) == Some(i as int),
            None => crate::rotation::first_none(v@) == None::<int>,
        },
{
    proof {
        crate::rotation::lemma_first_none_char(v@);
    }
    let n = v.len();
    let mut i: usize = 0;
    while i < n
        invariant
            n == v.len(),
            0 <= i <= n,
            forall|j: int| 0 <= j < i ==> v@[j] is Some,
        decreases n - i,
    {
        if v[i].is_none() {
            proof {
                crate::rotation::lemma_first_none_char(v@);
            }
            return Some(i);
        }
        i = i + 1;
    }
    None
}

/// An independent copy of a Rosca state with the same view.
fn snapshot_rosca(r: &RoscaState) -> (out: RoscaState)
    requires
        r.wf(),
    ensures
        out@ == r@,
        out.wf(),
{
    let out = RoscaState {
        details: RoscaDetails {
            random_order: r.details.random_order,
            number_of_participants: r.details.number_of_participants,
            minimum_participant_threshold: r.details.minimum_participant_threshold,
            contribution_amount: r.details.contribution_amount,
            payment_asset: r.details.payment_asset,
            contribution_frequency: r.details.contribution_frequency,
            start_by_timestamp: r.details.start_by_timestamp,
            name: clone_vec_copy(&r.details.name),
        },
        phase: r.phase,
        pending_order: clone_vec_copy(&r.pending_order),
        invited: r.invited.snapshot(),
        positions: r.positions.snapshot(),
        participants_count: r.participants_count,
        deposits: r.deposits.snapshot(),
        active_order: clone_vec_copy(&r.active_order),
        eligible_claimant: r.eligible_claimant,
        next_pay_by: r.next_pay_by,
        final_pay_by: r.final_pay_by,
        current_contributors: r.current_contributors.snapshot(),
        current_contribution_count: r.current_contribution_count,
        default_counts: r.default_counts.snapshot(),
    };
    proof {
        assert(out@ =~= r@);
    }
    out
}

/// The filled slots of a pending order, read from the last slot to the
/// first: the initial active order.
fn reversed_filled(v: &Vec<Option<u64>>) -> (r: Vec<u64>)
    ensures
        r@ == crate::rotation::rev_filled(v@),
{
    let n = v.len();
    let mut out: Vec<u64> = Vec::new();
    let mut i: usize = n;
    proof {
        assert(v@.subrange(n as int, n as int) =~= Seq::<Option<u64>>::empty());
    }
    while i > 0
        invariant
            n == v.len(),
            0 <= i <= n,
            out@ == crate::rotation::rev_filled(v@.subrange(i as int, n as int)),
        decreases i,
    {
        i = i - 1;
        proof {
            let tail = v@.subrange(i as int, n as int);
            crate::rotation::lemma_rev_filled_drop_first(tail);
            assert(tail.drop_first() =~= v@.subrange(i + 1 as int, n as int));
            assert(tail[0] == v@[i as int]);
        }
        match v[i] {
            Some(a) => {
                out.push(a);
            },
            None => {},
        }
        proof {
            assert(out@ =~= crate::rotation::rev_filled(v@.subrange(i as int, n as int)));
        }
    }
    proof {
        assert(v@.subrange(0, n as int) =~= v@);
    }
    out
}

/// Rotates a claim order right by one: the last element moves to the
/// front.
fn rotate_right_one(v: &mut Vec<u64>)
    requires
        old(v)@.len() >= 1,
    ensures
        final(v)@ == crate::rotation::rotated_right(old(v)@),
{
    let x = v.pop().unwrap();
    v.insert(0, x);
    proof {
        assert(final(v)@ =~= crate::rotation::rotated_right(old(v)@));
    }
}

/// Everyone of a claim order except the round's recipient, in order.
fn others_of(v: &Vec<u64>, recipient: u64) -> (r: Vec<u64>)
    ensures
        r@ == others_seq(v@, recipient),
{
    let n = v.len();
    let mut out: Vec<u64> = Vec::new();
    let mut i: usize = 0;
    proof {
        assert(v@.subrange(0, 0) =~= Seq::<u64>::empty());
        reveal(Seq::filter);
    }
    while i < n
        invariant
            n == v.len(),
            0 <= i <= n,
            out@ == others_seq(v@.subrange(0, i as int), recipient),
        decreases n - i,
    {
        proof {
            reveal(Seq::filter);
            let pfx = v@.subrange(0, i + 1 as int);
            assert(pfx.drop_last() =~= v@.subrange(0, i as int));
            assert(pfx.last() == v@[i as int]);
        }
        if v[i] != recipient {
            out.push(v[i]);
        }
        i = i + 1;
    }
    proof {
        assert(v@.subrange(0, n as int) =~= v@);
    }
    out
}

/// Settles one elapsed round on a staged Rosca state and ledger: every
/// missed contribution is drawn from its deposit, then the round advances.
/// Exactly `spec_settle_round`.
fn settle_round_exec(st: &mut RoscaState, led: &mut Ledger, ev: &mut Vec<Event>, rosca_id: u32)
    -> (r: Result<(), Error>)
    requires
        old(st).wf(),
        old(led).wf(),
    ensures
        final(st).wf(),
        final(led).wf(),
        old(ev)@.is_prefix_of(final(ev)@),
        match r {
            Ok(()) => crate::model::spec_settle_round(old(st)@, old(led)@, pot_of(rosca_id))
                == Ok::<(RoscaV, Map<u64, u128>), Error>((final(st)@, final(led)@)) && final(ev)@
                == old(ev)@ + crate::model::spec_settle_round_events(
                old(st)@,
                old(led)@,
                pot_of(rosca_id),
                rosca_id,
            ),
            Err(e) => crate::model::spec_settle_round(old(st)@, old(led)@, pot_of(rosca_id))
                == Err::<(RoscaV, Map<u64, u128>), Error>(e),
        },
{
    let ghost s0 = old(st)@;
    let ghost b0 = old(led)@;
    let ghost init = (crate::model::Settled { deposits: s0.deposits, defaults: s0.defaults, balances: b0 });
    let pot = Pallet::rosca_account_id(rosca_id);
    let claimant = st.eligible_claimant;
    let amount = st.details.contribution_amount;
    let n = st.active_order.len();
    let mut i: usize = 0;
    while i < n
        invariant
            n == st.active_order@.len(),
            0 <= i <= n,
            st.wf(),
            led.wf(),
            claimant == s0.eligible_claimant,
            amount == s0.contribution_amount,
            pot == pot_of(rosca_id),
            s0 == old(st)@,
            b0 == old(led)@,
            init == (crate::model::Settled {
                deposits: s0.deposits,
                defaults: s0.defaults,
                balances: b0,
            }),
            st@ =~= (RoscaV { deposits: st@.deposits, defaults: st@.defaults, ..s0 }),
            crate::model::spec_settle_upto(
                claimant,
                amount,
                s0.marks,
                pot,
                s0.active_order,
                i as int,
                init,
            ) == Ok::<crate::model::Settled, Error>(
                crate::model::Settled {
                    deposits: st@.deposits,
                    defaults: st@.defaults,
                    balances: led@,
                },
            ),
            old(ev)@.is_prefix_of(ev@),
            ev@ == old(ev)@ + crate::model::spec_settle_upto_events(
                claimant,
                amount,
                s0.marks,
                pot,
                s0.active_order,
                i as int,
                init,
                rosca_id,
            ),
        decreases n - i,
    {
        let ghost ev_pre = ev@;
        let ghost pre_settled = (crate::model::Settled {
            deposits: st@.deposits,
            defaults: st@.defaults,
            balances: led@,
        });
        let p = st.active_order[i];
        if p != claimant && st.current_contributors.get(p).is_none() {
            let dep = match st.deposits.get(p) {
                Some(d) => d,
                None => 0,
            };
            if dep < amount {
                if dep > 0 {
                    match led.transfer(pot, claimant, dep as u128) {
                        Ok(()) => {},
                        Err(e) => {
                            proof {
                                assert(crate::model::spec_settle_one(
                                    claimant,
                                    amount,
                                    s0.marks,
                                    pot,
                                    pre_settled,
                                    s0.active_order[i as int],
                                ) == Err::<crate::model::Settled, Error>(e));
                                assert(crate::model::spec_settle_upto(
                                    claimant,
                                    amount,
                                    s0.marks,
                                    pot,
                                    s0.active_order,
                                    i + 1 as int,
                                    init,
                                ) == Err::<crate::model::Settled, Error>(e));
                                crate::model::lemma_settle_upto_error(
                                    claimant,
                                    amount,
                                    s0.marks,
                                    pot,
                                    s0.active_order,
                                    i + 1 as int,
                                    n as int,
                                    init,
                                );
                                assert(crate::model::spec_settle_round(
                                    old(st)@,
                                    old(led)@,
                                    pot_of(rosca_id),
                                ) == Err::<(RoscaV, Map<u64, u128>), Error>(e));
                            }
                            return Err(e);
                        },
                    }
                    st.deposits.insert(p, 0);
                    ev.push(
                        Event::DepositDeducted {
                            rosca_id,
                            contributor: p,
                            recipient: claimant,
                            amount: dep as u128,
                            sufficient: false,
                        },
                    );
                }
                let d0 = match st.default_counts.get(p) {
                    Some(d) => d,
                    None => 0,
                };
                let d1 = if d0 == u32::MAX {
                    d0
                } else {
                    d0 + 1
                };
                st.default_counts.insert(p, d1);
                ev.push(Event::ParticipantDefaulted { rosca_id, participant: p });
            } else {
                match led.transfer(pot, claimant, amount as u128) {
                    Ok(()) => {},
                    Err(e) => {
                        proof {
                            assert(crate::model::spec_settle_one(
                                claimant,
                                amount,
                                s0.marks,
                                pot,
                                pre_settled,
                                s0.active_order[i as int],
                            ) == Err::<crate::model::Settled, Error>(e));
                            assert(crate::model::spec_settle_upto(
                                claimant,
                                amount,
                                s0.marks,
                                pot,
                                s0.active_order,
                                i + 1 as int,
                                init,
                            ) == Err::<crate::model::Settled, Error>(e));
                            crate::model::lemma_settle_upto_error(
                                claimant,
                                amount,
                                s0.marks,
                                pot,
                                s0.active_order,
                                i + 1 as int,
                                n as int,
                                init,
                            );
                            assert(crate::model::spec_settle_round(
                                old(st)@,
                                old(led)@,
                                pot_of(rosca_id),
                            ) == Err::<(RoscaV, Map<u64, u128>), Error>(e));
                        }
                        return Err(e);
                    },
                }
                st.deposits.insert(p, dep - amount);
                ev.push(
                    Event::DepositDeducted {
                        rosca_id,
                        contributor: p,
                        recipient: claimant,
                        amount: amount as u128,
                        sufficient: true,
                    },
                );
            }
        }
        proof {
            assert(crate::model::spec_settle_one(
                claimant,
                amount,
                s0.marks,
                pot,
                pre_settled,
                s0.active_order[i as int],
            ) == Ok::<crate::model::Settled, Error>(
                crate::model::Settled {
                    deposits: st@.deposits,
                    defaults: st@.defaults,
                    balances: led@,
                },
            ));
            assert(st@ =~= (RoscaV { deposits: st@.deposits, defaults: st@.defaults, ..s0 }));
            assert(ev@ =~= ev_pre + crate::model::spec_settle_one_events(
                claimant,
                amount,
                s0.marks,
                pre_settled,
                s0.active_order[i as int],
                rosca_id,
            ));
            assert(ev@ =~= old(ev)@ + crate::model::spec_settle_upto_events(
                claimant,
                amount,
                s0.marks,
                pot,
                s0.active_order,
                i + 1 as int,
                init,
                rosca_id,
            ));
        }
        i = i + 1;
    }
    if n == 0 {
        return Err(Error::ArithmeticError);
    }
    let freq = st.details.contribution_frequency;
    if st.next_pay_by > u64::MAX - freq {
        return Err(Error::ArithmeticOverflow);
    }
    st.next_pay_by = st.next_pay_by + freq;
    let new_claimant = st.active_order[n - 1];
    st.eligible_claimant = new_claimant;
    rotate_right_one(&mut st.active_order);
    st.current_contributors.clear();
    st.current_contribution_count = 0;
    ev.push(Event::NewRoundStarted { rosca_id, new_eligible_recipient: new_claimant });
    proof {
        assert(final(ev)@ =~= old(ev)@ + crate::model::spec_settle_round_events(
            s0,
            b0,
            pot,
            rosca_id,
        ));
        assert(final(st)@ =~= (RoscaV {
            deposits: final(st)@.deposits,
            defaults: final(st)@.defaults,
            next_pay_by: (s0.next_pay_by + s0.contribution_frequency) as u64,
            eligible_claimant: s0.active_order.last(),
            active_order: crate::rotation::rotated_right(s0.active_order),
            marks: Set::empty(),
            contribution_count: 0u32,
            ..s0
        }));
    }
    Ok(())
}

/// Appends every event of `src`, in order.
fn push_all(dst: &mut Vec<Event>, src: Vec<Event>)
    ensures
        final(dst)@ == old(dst)@ + src@,
{
    let ghost src0 = src@;
    let mut src = src;
    proof {
        assert(src@ =~= src0.subrange(src0.len() - src@.len(), src0.len() as int));
        assert(dst@ =~= old(dst)@ + src0.subrange(0, src0.len() - src@.len()));
    }
    while src.len() > 0
        invariant
            src@.len() <= src0.len(),
            src@ =~= src0.subrange(src0.len() - src@.len(), src0.len() as int),
            dst@ =~= old(dst)@ + src0.subrange(0, src0.len() - src@.len()),
        decreases src@.len(),
    {
        let e = src.remove(0);
        dst.push(e);
        proof {
            assert(src@ =~= src0.subrange(src0.len() - src@.len(), src0.len() as int));
            assert(dst@ =~= old(dst)@ + src0.subrange(0, src0.len() - src@.len()));
        }
    }
    proof {
        assert(src0.subrange(0, src0.len() as int) =~= src0);
        assert(final(dst)@ =~= old(dst)@ + src0);
    }
}

/// Sorts pairwise-distinct participants into strictly increasing order,
/// keeping exactly the same elements.
fn sort_distinct(v: Vec<u64>) -> (r: Vec<u64>)
    requires
        v@.no_duplicates(),
    ensures
        r@.to_multiset() == v@.to_multiset(),
        forall|i: int, j: int| 0 <= i < j < r@.len() ==> r@[i] < r@[j],
{
    broadcast use vstd::seq_lib::group_to_multiset_ensures;

    let n = v.len();
    let mut out: Vec<u64> = Vec::new();
    let mut i: usize = 0;
    proof {
        assert(v@.subrange(0, 0).to_multiset() =~= vstd::multiset::Multiset::<u64>::empty());
        assert(out@.to_multiset() =~= vstd::multiset::Multiset::<u64>::empty());
    }
    while i < n
        invariant
            n == v.len(),
            0 <= i <= n,
            v@.no_duplicates(),
            out@.len() == i,
            out@.to_multiset() == v@.subrange(0, i as int).to_multiset(),
            forall|a: int, b: int| 0 <= a < b < out@.len() ==> out@[a] < out@[b],
        decreases n - i,
    {
        broadcast use vstd::seq_lib::group_to_multiset_ensures;

        let ghost old_out = out@;
        let x = v[i];
        let mut k: usize = 0;
        while k < out.len() && out[k] < x
            invariant
                0 <= k <= out@.len(),
                out@ == old_out,
                forall|a: int| 0 <= a < k ==> out@[a] < x,
            decreases out@.len() - k,
        {
            k = k + 1;
        }
        proof {
            if old_out.contains(x) {
                assert(old_out.to_multiset().count(x) > 0);
                assert(v@.subrange(0, i as int).contains(x));
                let j = choose|j: int| 0 <= j < i && v@.subrange(0, i as int)[j] == x;
                assert(v@[j] == x && v@[i as int] == x);
                assert(false);
            }
            assert forall|a: int| k <= a < old_out.len() implies old_out[a] > x by {
                assert(!(old_out[k as int] < x));
                assert(old_out[k as int] != x) by {
                    assert(!old_out.contains(x));
                }
                if a > k {
                    assert(old_out[k as int] < old_out[a]);
                }
            }
            vstd::seq_lib::to_multiset_insert(old_out, k as int, x);
            assert(v@.subrange(0, i + 1 as int) =~= v@.subrange(0, i as int).push(v@[i as int]));
        }
        out.insert(k, x);
        proof {
            assert forall|a: int, b: int| 0 <= a < b < out@.len() implies out@[a] < out@[b] by {
                if b < k {
                    assert(out@[a] == old_out[a] && out@[b] == old_out[b]);
                } else if a < k && b == k {
                    assert(out@[a] == old_out[a] && out@[b] == x);
                } else if a < k && b > k {
                    assert(out@[a] == old_out[a] && out@[b] == old_out[b - 1]);
                    assert(old_out[a] < x);
                    assert(old_out[b - 1] > x);
                } else if a == k {
                    assert(out@[a] == x && out@[b] == old_out[b - 1]);
                } else {
                    assert(out@[a] == old_out[a - 1] && out@[b] == old_out[b - 1]);
                }
            }
        }
        i = i + 1;
    }
    proof {
        assert(v@.subrange(0, n as int) =~= v@);
    }
    out
}

/// Whether a vector holds a value.
fn vec_contains(v: &Vec<u64>, x: u64) -> (r: bool)
    ensures
        r == v@.contains(x),
{
    let n = v.len();
    let mut i: usize = 0;
    while i < n
        invariant
            n == v.len(),
            0 <= i <= n,
            forall|j: int| 0 <= j < i ==> v@[j] != x,
        decreases n - i,
    {
        if v[i] == x {
            return true;
        }
        i = i + 1;
    }
    proof {
        assert(!v@.contains(x));
    }
    false
}

/// The vector with its duplicates dropped, keeping first occurrences.
fn dedup_vec(v: &Vec<u64>) -> (r: Vec<u64>)
    ensures
        r@ == crate::rotation::dedup_first(v@),
{
    let n = v.len();
    let mut out: Vec<u64> = Vec::new();
    let mut i: usize = 0;
    while i < n
        invariant
            n == v.len(),
            0 <= i <= n,
            out@ =~= crate::rotation::dedup_first(v@.subrange(0, i as int)),
        decreases n - i,
    {
        proof {
            crate::rotation::lemma_dedup_first(v@.subrange(0, i as int));
            assert(v@.subrange(0, i + 1 as int).drop_last() =~= v@.subrange(0, i as int));
        }
        if !vec_contains(&out, v[i]) {
            proof {
                assert(!v@.subrange(0, i as int).contains(v@[i as int]));
            }
            out.push(v[i]);
        } else {
            proof {
                assert(v@.subrange(0, i as int).contains(v@[i as int]));
            }
        }
        i = i + 1;
    }
    proof {
        assert(v@.subrange(0, n as int) =~= v@);
    }
    out
}

/// An element-wise copy of a vector of copyable values.
fn clone_vec_copy<T: Copy>(v: &Vec<T>) -> (r: Vec<T>)
    ensures
        r@ == v@,
{
    let n = v.len();
    let mut out: Vec<T> = Vec::new();
    let mut i: usize = 0;
    while i < n
        invariant
            n == v.len(),
            0 <= i <= n,
            out@ =~= v@.subrange(0, i as int),
        decreases n - i,
    {
        out.push(v[i]);
        proof {
            assert(out@ =~= v@.subrange(0, i + 1 as int));
        }
        i = i + 1;
    }
    proof {
        assert(out@ =~= v@);
    }
    out
}

} // verus!
