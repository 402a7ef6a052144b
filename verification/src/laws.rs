//! The laws of the state machine, proved once and for all over the spec
//! transitions: how the participant count evolves, when starting is owed,
//! the shape of the rotation over one full cycle, the guards on
//! contributing, the timing of advancements, the terminality of
//! completion, and the deposit accounting.

use vstd::prelude::*;
use vstd::seq_lib::lemma_multiset_commutative;

use crate::ledger::bal_of;
use crate::model::def_of;
use crate::model::dep_of;
use crate::model::bumped;
use crate::model::spec_add_deposit;
use crate::model::spec_catch_up;
use crate::model::spec_claim_deposit;
use crate::model::spec_complete_check;
use crate::model::spec_contribute;
use crate::model::spec_create;
use crate::model::spec_join;
use crate::model::spec_leave;
use crate::model::spec_manual_end;
use crate::model::spec_settle_one;
use crate::model::spec_settle_round;
use crate::model::Settled;
use crate::model::spec_start;
use crate::rotation::lemma_num_filled_le;
use crate::rotation::lemma_num_filled_pos;
use crate::rotation::lemma_num_filled_update;
use crate::rotation::lemma_rev_filled_len;
use crate::rotation::lemma_shuffle_permutes;
use crate::rotation::rotated_right;
use crate::state::rosca_inv;
use crate::state::RoscaV;
use crate::types::Error;

verus! {

/// A valid creation starts with a pending count of exactly one: the
/// creator.
pub proof fn lemma_create_initial_count(
    signer: u64,
    random_order: bool,
    invited: Seq<u64>,
    minimum_participant_threshold: u32,
    contribution_amount: u32,
    payment_asset: crate::types::PaymentAssets,
    contribution_frequency: u64,
    start_by_timestamp: u64,
    position: Option<u32>,
    name: Seq<u8>,
    now: u64,
)
    ensures
        spec_create(
            signer,
            random_order,
            invited,
            minimum_participant_threshold,
            contribution_amount,
            payment_asset,
            contribution_frequency,
            start_by_timestamp,
            position,
            name,
            now,
        ) matches Ok(v) ==> v.participants_count == 1,
{
}

/// Each successful join raises the pending count by exactly one, and the
/// count never exceeds the configured number of participants.
pub proof fn lemma_join_increments_count(s: RoscaV, signer: u64, position: Option<u32>, now: u64)
    requires
        rosca_inv(s),
    ensures
        spec_join(s, signer, position, now) matches Ok(v) ==> {
            &&& v.participants_count == s.participants_count + 1
            &&& v.participants_count <= v.number_of_participants
        },
{
    if spec_join(s, signer, position, now) is Ok {
        let v = spec_join(s, signer, position, now)->Ok_0;
        match position {
            Some(p) => {
                lemma_num_filled_update(s.pending_order, p as int, Some(signer));
            },
            None => {
                crate::rotation::lemma_first_none_char(s.pending_order);
                let i = crate::rotation::first_none(s.pending_order)->Some_0;
                lemma_num_filled_update(s.pending_order, i, Some(signer));
            },
        }
        lemma_num_filled_le(v.pending_order);
    }
}

/// Starting fails with `ParticipantThresholdNotMet` exactly while the
/// count lies below the threshold, and succeeds whenever the threshold is
/// met before the start-by deadline (within the machine limit on the final
/// deadline).
pub proof fn lemma_start_threshold(s: RoscaV, signer: u64, now: u64, entropy: Seq<u8>)
    requires
        rosca_inv(s),
        s.phase is Pending,
        s.positions.contains_key(signer),
        now as int + s.participants_count as int * s.contribution_frequency as int <= u64::MAX
            as int,
    ensures
        s.participants_count < s.minimum_participant_threshold && now < s.start_by_timestamp
            ==> spec_start(s, signer, now, entropy) == Err::<RoscaV, Error>(
            Error::ParticipantThresholdNotMet,
        ),
        s.participants_count >= s.minimum_participant_threshold && now < s.start_by_timestamp
            ==> spec_start(s, signer, now, entropy) is Ok,
{
    lemma_rev_filled_len(s.pending_order);
    lemma_num_filled_le(s.pending_order);
    let base = crate::rotation::rev_filled(s.pending_order);
    lemma_shuffle_permutes(base, entropy, 0);
    let idx = s.positions[signer];
    lemma_num_filled_pos(s.pending_order, idx as int);
}

/// While a Rosca is started, its claim order holds exactly the confirmed
/// count of participants and the eligible claimant is one of them — in
/// fact the order's head. Every committed state satisfies `rosca_inv`, so
/// this holds at every point while active.
pub proof fn lemma_active_claimant_in_order(s: RoscaV)
    requires
        rosca_inv(s),
        !(s.phase is Pending),
    ensures
        s.active_order.len() == s.participants_count,
        s.active_order.contains(s.eligible_claimant),
{
    assert(s.active_order[0] == s.eligible_claimant);
}

/// The claim order after `k` advancements.
pub open spec fn nth_order(o: Seq<u64>, k: nat) -> Seq<u64>
    decreases k,
{
    if k == 0 {
        o
    } else {
        rotated_right(nth_order(o, (k - 1) as nat))
    }
}

/// The eligible claimants of `k` consecutive rounds, starting from a
/// round whose order is `o` (whose head is that round's claimant).
pub open spec fn cycle_claimants(o: Seq<u64>, k: nat) -> Seq<u64> {
    Seq::new(k, |i: int| nth_order(o, i as nat)[0])
}

/// After `k` advancements the order is the starting order rotated right
/// by `k`.
proof fn lemma_nth_order_shape(o: Seq<u64>, k: nat)
    requires
        o.len() >= 1,
        k <= o.len(),
    ensures
        nth_order(o, k) =~= o.subrange(o.len() - k, o.len() as int) + o.subrange(
            0,
            o.len() - k,
        ),
    decreases k,
{
    let n = o.len() as int;
    if k == 0 {
        assert(nth_order(o, 0) =~= o.subrange(n, n) + o.subrange(0, n));
    } else {
        lemma_nth_order_shape(o, (k - 1) as nat);
        let prev = nth_order(o, (k - 1) as nat);
        assert(prev =~= o.subrange(n - (k - 1), n) + o.subrange(0, n - (k - 1)));
        assert(prev.len() == n);
        assert(prev.last() == o[n - k]);
        assert(nth_order(o, k) == rotated_right(prev));
        assert(rotated_right(prev) =~= o.subrange(n - k, n) + o.subrange(0, n - k));
    }
}

/// Across one full cycle — as many rounds as there are participants — the
/// eligible claimants are exactly the participants, each exactly once: the
/// multiset of claimants equals the multiset of the order, with no
/// repeats. One advancement takes the order `o`, whose head is the current
/// claimant, to `rotated_right(o)`, whose head is the next claimant, as
/// the contracts of settling and contributing state.
pub proof fn lemma_cycle_claimants(o: Seq<u64>)
    requires
        o.len() >= 1,
        o.no_duplicates(),
    ensures
        cycle_claimants(o, o.len()).to_multiset() == o.to_multiset(),
        cycle_claimants(o, o.len()).no_duplicates(),
{
    let n = o.len() as int;
    let c = cycle_claimants(o, o.len());
    assert forall|i: int| 0 <= i < n implies c[i] == (if i == 0 {
        o[0]
    } else {
        o[n - i]
    }) by {
        lemma_nth_order_shape(o, i as nat);
        if i > 0 {
            assert(nth_order(o, i as nat)[0] == o.subrange(n - i, n)[0]);
        }
    }
    let tail_rev = o.subrange(1, n).reverse();
    assert(c =~= seq![o[0]] + tail_rev);
    o.subrange(1, n).lemma_reverse_to_multiset();
    lemma_multiset_commutative(seq![o[0]], tail_rev);
    lemma_multiset_commutative(seq![o[0]], o.subrange(1, n));
    assert(o =~= seq![o[0]] + o.subrange(1, n));
    assert(c.to_multiset() =~= o.to_multiset());
    crate::rotation::lemma_permutation_no_duplicates(o, c);
}

/// The claimant cannot contribute to itself: a contribution by the
/// eligible claimant at entry is rejected, a contribution by whoever is
/// the eligible claimant once elapsed rounds are settled is rejected as
/// well, and a successful contribution was made by neither. Moreover,
/// while a Rosca is active its eligible claimant never holds a
/// contribution mark.
pub proof fn lemma_no_self_contribution(
    s: RoscaV,
    bal: Map<u64, u128>,
    signer: u64,
    now: u64,
    pot: u64,
)
    requires
        rosca_inv(s),
    ensures
        s.phase is Active && s.positions.contains_key(signer) && s.eligible_claimant == signer
            ==> spec_contribute(s, bal, signer, now, pot) == Err::<(RoscaV, Map<u64, u128>), Error>(
            Error::CantContributeToSelf,
        ),
        (s.phase is Active && s.positions.contains_key(signer) && s.eligible_claimant != signer
            && !s.marks.contains(signer) && (spec_catch_up(s, bal, pot, now) matches Ok((s1, _))
            && s1.eligible_claimant == signer)) ==> spec_contribute(s, bal, signer, now, pot)
            == Err::<(RoscaV, Map<u64, u128>), Error>(Error::CantContributeToSelf),
        spec_contribute(s, bal, signer, now, pot) is Ok ==> {
            &&& s.eligible_claimant != signer
            &&& (spec_catch_up(s, bal, pot, now) matches Ok((s1, _)) && s1.eligible_claimant
                != signer)
        },
        s.phase is Active ==> !s.marks.contains(s.eligible_claimant),
{
}

/// A participant cannot contribute twice in the same round: a second
/// contribution is rejected as `AlreadyContributed`, and while active the
/// round's contribution count never reaches the participant count.
pub proof fn lemma_no_double_contribution(
    s: RoscaV,
    bal: Map<u64, u128>,
    signer: u64,
    now: u64,
    pot: u64,
)
    requires
        rosca_inv(s),
    ensures
        s.phase is Active && s.positions.contains_key(signer) && s.eligible_claimant != signer
            && s.marks.contains(signer) ==> spec_contribute(s, bal, signer, now, pot) == Err::<
            (RoscaV, Map<u64, u128>),
            Error,
        >(Error::AlreadyContributed),
        s.phase is Active && s.active_order.len() >= 2 ==> s.contribution_count as int
            <= s.active_order.len() - 1,
{
}

/// Settling one round — whatever triggered it — moves the next pay-by
/// deadline forward by exactly one frequency increment, rotates the order
/// right by one, and makes the new order's head the eligible claimant.
pub proof fn lemma_advance_timing(s: RoscaV, bal: Map<u64, u128>, pot: u64)
    requires
        s.active_order.len() >= 1,
    ensures
        spec_settle_round(s, bal, pot) matches Ok((s1, _)) ==> {
            &&& s1.next_pay_by as int == s.next_pay_by as int + s.contribution_frequency as int
            &&& s1.active_order == rotated_right(s.active_order)
            &&& s1.eligible_claimant == s1.active_order[0]
        },
{
    if spec_settle_round(s, bal, pot) is Ok {
        crate::rotation::lemma_rotated_right(s.active_order);
    }
}

/// A contribution that completes its round (without completing the Rosca)
/// moves the deadline forward by exactly one frequency increment; one that
/// does not leaves the deadline alone. Stated for calls that trigger no
/// catch-up; elapsed rounds advance through `spec_settle_round`.
pub proof fn lemma_contribute_timing(
    s: RoscaV,
    bal: Map<u64, u128>,
    signer: u64,
    now: u64,
    pot: u64,
)
    requires
        rosca_inv(s),
        now < s.next_pay_by,
    ensures
        spec_contribute(s, bal, signer, now, pot) matches Ok((v, _)) ==> if v.phase is Active {
            if v.contribution_count == 0 {
                v.next_pay_by as int == s.next_pay_by as int + s.contribution_frequency as int
            } else {
                v.next_pay_by == s.next_pay_by
            }
        } else {
            v.next_pay_by == s.next_pay_by
        },
{
}

/// An advancement that would push the deadline past the final pay-by
/// deadline completes the Rosca; and completion is terminal: on a
/// completed Rosca, contributing, adding to a deposit, leaving, joining,
/// starting and manually ending all fail, and no operation leaves the
/// completed phase.
pub proof fn lemma_completion_terminal(
    s: RoscaV,
    bal: Map<u64, u128>,
    signer: u64,
    amount: u32,
    position: Option<u32>,
    now: u64,
    pot: u64,
    entropy: Seq<u8>,
)
    requires
        rosca_inv(s),
    ensures
        spec_settle_round(s, bal, pot) matches Ok((s1, _)) ==> (s1.next_pay_by > s.final_pay_by
            ==> spec_complete_check(s1).phase is Completed),
        s.phase is Completed ==> spec_contribute(s, bal, signer, now, pot) == Err::<
            (RoscaV, Map<u64, u128>),
            Error,
        >(
            if s.positions.contains_key(signer) {
                Error::RoscaAlreadyCompleted
            } else {
                Error::NotAParticipant
            },
        ),
        s.phase is Completed ==> spec_add_deposit(s, bal, signer, amount, pot) == Err::<
            (RoscaV, Map<u64, u128>),
            Error,
        >(
            if s.positions.contains_key(signer) {
                Error::RoscaAlreadyCompleted
            } else {
                Error::NotAParticipant
            },
        ),
        s.phase is Completed ==> spec_leave(s, bal, signer, pot) == Err::<
            (RoscaV, Map<u64, u128>),
            Error,
        >(
            if s.positions.contains_key(signer) {
                Error::RoscaNotFound
            } else {
                Error::NotAParticipant
            },
        ),
        s.phase is Completed ==> spec_join(s, signer, position, now) is Err,
        s.phase is Completed ==> spec_start(s, signer, now, entropy) is Err,
        s.phase is Completed ==> spec_manual_end(s, bal, pot, now) == Err::<
            (RoscaV, Map<u64, u128>),
            Error,
        >(Error::RoscaNotActive),
        s.phase is Completed ==> (spec_claim_deposit(s, bal, signer, pot, now) matches Ok((v, _))
            ==> v.phase is Completed),
{
}

/// How a missed contribution is settled, participant by participant: with
/// no deposit, only a default is recorded; with a deposit below the
/// contribution amount, the whole remaining deposit goes to the claimant —
/// who receives only that remainder, the shortfall absorbed with no
/// receivable tracked — the deposit drops to zero and a default is
/// recorded; with a sufficient deposit, exactly the contribution amount is
/// covered and no default is recorded. Stated where the escrow holds the
/// funds and the claimant's balance can take them; otherwise the transfer
/// fails and the surrounding call aborts with its error, changing nothing.
pub proof fn lemma_default_drawdown(
    claimant: u64,
    amount: u32,
    marks: Set<u64>,
    pot: u64,
    st: Settled,
    p: u64,
)
    requires
        amount >= 1,
        p != claimant,
        !marks.contains(p),
        pot != claimant,
        bal_of(st.balances, pot) >= dep_of(st.deposits, p) as u128,
        bal_of(st.balances, pot) >= amount as u128,
        bal_of(st.balances, claimant) <= u128::MAX - amount as u128,
        bal_of(st.balances, claimant) <= u128::MAX - dep_of(st.deposits, p) as u128,
    ensures
        dep_of(st.deposits, p) == 0 ==> spec_settle_one(claimant, amount, marks, pot, st, p)
            == Ok::<Settled, Error>(Settled { defaults: bumped(st.defaults, p), ..st }),
        0 < dep_of(st.deposits, p) < amount ==> (spec_settle_one(
            claimant,
            amount,
            marks,
            pot,
            st,
            p,
        ) matches Ok(st2) && {
            &&& dep_of(st2.deposits, p) == 0
            &&& def_of(st2.defaults, p) as int == def_of(st.defaults, p) as int + (
            if def_of(st.defaults, p) == u32::MAX {
                0int
            } else {
                1int
            })
            &&& bal_of(st2.balances, claimant) as int == bal_of(st.balances, claimant) as int
                + dep_of(st.deposits, p) as int
            &&& bal_of(st2.balances, pot) as int == bal_of(st.balances, pot) as int - dep_of(
                st.deposits,
                p,
            ) as int
        }),
        dep_of(st.deposits, p) >= amount ==> (spec_settle_one(claimant, amount, marks, pot, st, p)
            matches Ok(st2) && {
            &&& dep_of(st2.deposits, p) as int == dep_of(st.deposits, p) as int - amount as int
            &&& st2.defaults == st.defaults
            &&& bal_of(st2.balances, claimant) as int == bal_of(st.balances, claimant) as int
                + amount as int
            &&& bal_of(st2.balances, pot) as int == bal_of(st.balances, pot) as int - amount as int
        }),
{
}

/// Adding to a security deposit raises the recorded balance by exactly
/// the transferred amount, moving it from the participant to the escrow;
/// claiming returns exactly the prior balance and drops the record;
/// claiming at zero fails with `SecurityDepositIsZero`; claiming before
/// the final pay-by deadline fails; and claiming is owed once the Rosca is
/// past its final deadline and no longer active, whenever the escrow holds
/// the recorded funds.
pub proof fn lemma_deposit_accounting(
    s: RoscaV,
    bal: Map<u64, u128>,
    signer: u64,
    amount: u32,
    now: u64,
    pot: u64,
)
    requires
        rosca_inv(s),
        pot != signer,
    ensures
        spec_add_deposit(s, bal, signer, amount, pot) matches Ok((v, b2)) ==> {
            &&& dep_of(v.deposits, signer) as int == dep_of(s.deposits, signer) as int
                + amount as int
            &&& bal_of(b2, pot) as int == bal_of(bal, pot) as int + amount as int
            &&& bal_of(b2, signer) as int == bal_of(bal, signer) as int - amount as int
        },
        spec_claim_deposit(s, bal, signer, pot, now) matches Ok((v, b2)) ==> {
            &&& !v.deposits.contains_key(signer)
            &&& bal_of(b2, signer) as int == bal_of(bal, signer) as int + dep_of(
                s.deposits,
                signer,
            ) as int
            &&& bal_of(b2, pot) as int == bal_of(bal, pot) as int - dep_of(s.deposits, signer)
                as int
        },
        !(s.phase is Pending) && !(s.phase is Active) && now > s.final_pay_by
            && s.deposits.contains_key(signer) && s.deposits[signer] == 0 ==> spec_claim_deposit(
            s,
            bal,
            signer,
            pot,
            now,
        ) == Err::<(RoscaV, Map<u64, u128>), Error>(Error::SecurityDepositIsZero),
        !(s.phase is Pending) && now <= s.final_pay_by ==> spec_claim_deposit(
            s,
            bal,
            signer,
            pot,
            now,
        ) == Err::<(RoscaV, Map<u64, u128>), Error>(Error::FinalPayByTimestampMustBePast),
        (!(s.phase is Pending) && !(s.phase is Active) && now > s.final_pay_by
            && s.deposits.contains_key(signer) && s.deposits[signer] > 0 && bal_of(bal, pot)
            >= s.deposits[signer] as u128 && bal_of(bal, signer) <= u128::MAX
            - s.deposits[signer] as u128) ==> spec_claim_deposit(s, bal, signer, pot, now) is Ok,
{
}

} // verus!
