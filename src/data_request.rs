use vstd::prelude::*;

use crate::callback_args::{NewDataRequestArgs, Source};
use crate::errors::OracleError;
use crate::fee_config::{
    band_index, stake_cost, stake_cost_fits, stake_cost_of, CustomFeeStakeArgs, FeeConfig, PERCENTAGE_DIVISOR,
};
use crate::fee_config::fee_share;
use crate::helpers::{calc_product, lemma_sum_prefix, seq_sum};
use crate::requester_handler::Requester;
use crate::resolution_window::{
    covers_stakers, lemma_outcome_total_le, lemma_stakers_within_total, lemma_user_stake_le,
    ResolutionWindow,
};
use crate::sums::{
    col, lemma_seq_sum_is_sum_to, lemma_sum_to_add, lemma_sum_to_ext, lemma_sum_to_le,
    lemma_sum_to_swap, row, sum_to,
};
use crate::types::{AccountId, Outcome, OutcomeModel, Timestamp};

verus! {

/// How long a round's challenge window lasts.
pub open spec fn window_length(w: ResolutionWindow) -> int {
    w.end_time - w.start_time
}

/// A round counts for the finalized outcome `f` when `f` is the outcome it bonded.
pub open spec fn is_correct(w: ResolutionWindow, f: OutcomeModel) -> bool {
    w.bonded() == Some(f)
}

/// What staker `a` has on `f` in round `w`, if `w` bonded `f`.
pub open spec fn user_share(w: ResolutionWindow, a: Seq<char>, f: OutcomeModel) -> nat {
    if is_correct(w, f) {
        w.stake_of(a, f)
    } else {
        0
    }
}

/// The total on `f` in round `w`, if `w` bonded `f`.
pub open spec fn correct_share(w: ResolutionWindow, f: OutcomeModel) -> nat {
    if is_correct(w, f) {
        w.staked(f)
    } else {
        0
    }
}

pub open spec fn user_correct_terms(ws: Seq<ResolutionWindow>, a: Seq<char>, f: OutcomeModel) -> Seq<
    nat,
> {
    Seq::new(ws.len(), |i: int| user_share(ws[i], a, f))
}

pub open spec fn correct_terms(ws: Seq<ResolutionWindow>, f: OutcomeModel) -> Seq<nat> {
    Seq::new(ws.len(), |i: int| correct_share(ws[i], f))
}

/// Per round, all stake in it.
pub open spec fn stake_terms(ws: Seq<ResolutionWindow>) -> Seq<nat> {
    Seq::new(ws.len(), |i: int| ws[i].staked_total())
}

/// What round `w` holds on the finalized outcome `f`: the total on `f` and the staker's stake
/// on it, both zero in a round that did not bond `f`; and all stake in the round.
fn round_share(w: &ResolutionWindow, account_id: &AccountId, f: &Outcome) -> (r: (u128, u128, u128))
    requires
        w.wf(),
    ensures
        r.0 == correct_share(*w, f@),
        r.1 == user_share(*w, account_id@, f@),
        r.2 == w.staked_total(),
        r.1 <= r.0,
        r.0 <= r.2,
{
    proof {
        lemma_outcome_total_le(w.outcome_to_stake@, f@);
    }
    let correct = match &w.bonded_outcome {
        Some(b) => b.same_as(f),
        None => false,
    };
    if !correct {
        return (0, 0, w.total_staked);
    }
    let ci = w.total_on(f);
    let ui = w.user_stake(account_id, f);
    proof {
        lemma_user_stake_le(w.user_to_outcome_to_stake@, account_id@, f@);
    }
    (ci, ui, w.total_staked)
}

/// What a staker receives for a finalized request.
#[derive(Debug)]
pub struct Payout {
    /// The staker's stake on the finalized outcome in the rounds that bonded it, refunded.
    pub user_correct_stake: u128,
    /// All stake on the finalized outcome in the rounds that bonded it.
    pub total_correct_staked: u128,
    /// All other stake of the request: forfeited, and shared by the stakers of the finalized
    /// outcome.
    pub total_incorrect_staked: u128,
    /// The staker's share of the forfeited stake.
    pub stake_profit: u128,
    /// The staker's share of the fee.
    pub fee_profit: u128,
    /// Everything together.
    pub amount: u128,
}

/// One question put to the oracle, with the rounds of its dispute game.
pub struct DataRequest {
    pub id: u64,
    pub requester: Requester,
    pub target_contract: AccountId,
    pub sources: Vec<Source>,
    pub outcomes: Option<Vec<String>>,
    pub settlement_time: Timestamp,
    pub initial_challenge_period: u64,
    pub paid_fee: u128,
    /// The bond of the first round, before the requester's custom fee.
    pub validity_bond: u128,
    pub custom_fee: CustomFeeStakeArgs,
    pub final_arbitrator: AccountId,
    pub tags: Vec<String>,
    pub finalized_outcome: Option<Outcome>,
    pub final_arbitrator_triggered: bool,
    /// Fixed when the request opens, for its whole life.
    pub resolution_fee_percentage: Option<u16>,
    pub resolution_windows: Vec<ResolutionWindow>,
    pub claimed: Vec<AccountId>,
}

impl DataRequest {
    pub open spec fn windows(&self) -> Seq<ResolutionWindow> {
        self.resolution_windows@
    }

    pub open spec fn finalized(&self) -> Option<OutcomeModel> {
        match self.finalized_outcome {
            Some(o) => Some(o@),
            None => None,
        }
    }

    pub open spec fn has_claimed(&self, a: Seq<char>) -> bool {
        exists|i: int| 0 <= i < self.claimed@.len() && #[trigger] self.claimed@[i]@ == a
    }

    /// The terms of the request, which no step of the game changes.
    pub open spec fn same_terms(&self, other: &DataRequest) -> bool {
        &&& self.id == other.id
        &&& self.requester == other.requester
        &&& self.target_contract == other.target_contract
        &&& self.sources == other.sources
        &&& self.outcomes == other.outcomes
        &&& self.settlement_time == other.settlement_time
        &&& self.initial_challenge_period == other.initial_challenge_period
        &&& self.paid_fee == other.paid_fee
        &&& self.validity_bond == other.validity_bond
        &&& self.custom_fee == other.custom_fee
        &&& self.final_arbitrator == other.final_arbitrator
        &&& self.tags == other.tags
        &&& self.resolution_fee_percentage == other.resolution_fee_percentage
    }

    pub open spec fn wf(&self) -> bool {
        let ws = self.windows();
        &&& ws.len() <= u16::MAX
        &&& forall|i: int|
            #![trigger ws[i]]
            0 <= i < ws.len() ==> ws[i].wf() && ws[i].round == i && ws[i].dr_id == self.id
        &&& forall|i: int| #![trigger ws[i]] 0 <= i < ws.len() - 1 ==> ws[i].bonded() is Some
        &&& ws.len() > 0 ==> ws.last().bonded() is None
        &&& forall|i: int|
            #![trigger ws[i]]
            1 <= i < ws.len() ==> ws[i].bond_size == 2 * ws[i - 1].bond_size && window_length(
                ws[i],
            ) == 2 * window_length(ws[i - 1]) && ws[i].bonded() != ws[i - 1].bonded()
        &&& ws.len() > 0 ==> window_length(ws[0]) == self.initial_challenge_period
        &&& ws.len() > 0 ==> self.resolution_fee_percentage is Some
        &&& match self.resolution_fee_percentage {
            Some(p) => p <= PERCENTAGE_DIVISOR,
            None => true,
        }
    }

    /// A request as it is created: pending, with no round yet.
    pub fn new(
        id: u64,
        requester: Requester,
        args: NewDataRequestArgs,
        paid_fee: u128,
        validity_bond: u128,
        final_arbitrator: AccountId,
        tags: Vec<String>,
    ) -> (r: DataRequest)
        ensures
            r.wf(),
            r.id == id,
            r.requester == requester,
            r.target_contract == args.target_contract,
            r.sources == args.sources,
            r.outcomes == args.outcomes,
            r.settlement_time == args.settlement_time,
            r.initial_challenge_period == args.challenge_period,
            r.paid_fee == paid_fee,
            r.validity_bond == validity_bond,
            r.custom_fee == match requester.stake_multiplier {
                Some(m) => CustomFeeStakeArgs::Multiplier(m),
                None => CustomFeeStakeArgs::Base,
            },
            r.final_arbitrator == final_arbitrator,
            r.tags == tags,
            r.windows().len() == 0,
            r.finalized() is None,
            !r.final_arbitrator_triggered,
            r.resolution_fee_percentage is None,
            r.claimed@.len() == 0,
    {
        let custom_fee = requester.custom_fee();
        DataRequest {
            id,
            requester,
            target_contract: args.target_contract,
            sources: args.sources,
            outcomes: args.outcomes,
            settlement_time: args.settlement_time,
            initial_challenge_period: args.challenge_period,
            paid_fee,
            validity_bond,
            custom_fee,
            final_arbitrator,
            tags,
            finalized_outcome: None,
            final_arbitrator_triggered: false,
            resolution_fee_percentage: None,
            resolution_windows: Vec::new(),
            claimed: Vec::new(),
        }
    }

    /// What opening the request at `now` leads to: the first round's bond, or why it
    /// cannot open.
    pub open spec fn open_check(&self, now: Timestamp) -> Result<u128, OracleError> {
        let cost = stake_cost_of(self.validity_bond, self.custom_fee);
        if self.finalized() is Some {
            Err(OracleError::AlreadyFinalized)
        } else if self.windows().len() > 0 {
            Err(OracleError::InvalidRound)
        } else if now < self.settlement_time {
            Err(OracleError::NotOpen)
        } else if !stake_cost_fits(self.validity_bond, self.custom_fee) || cost == 0 {
            Err(OracleError::InvalidRequest)
        } else if now + self.initial_challenge_period > u64::MAX {
            Err(OracleError::ArithmeticOverflow)
        } else {
            Ok(cost as u128)
        }
    }

    /// Opens the request at `now`: the first round starts, with the stake cost as its bond
    /// and the initial challenge period as its length, and the resolution fee percentage is
    /// fixed from `valuation`, the valuation of the target contract.
    pub fn open(&mut self, now: Timestamp, valuation: u128, fee_config: &FeeConfig) -> (r: Result<
        (),
        OracleError,
    >)
        requires
            old(self).wf(),
            fee_config.wf(),
        ensures
            final(self).wf(),
            match old(self).open_check(now) {
                Err(e) => r == Err::<(), OracleError>(e) && *final(self) == *old(self),
                Ok(bond) => {
                    &&& r == Ok::<(), OracleError>(())
                    &&& final(self).windows().len() == 1
                    &&& final(self).windows()[0].is_empty()
                    &&& final(self).windows()[0].start_time == now
                    &&& final(self).windows()[0].end_time == now
                        + old(self).initial_challenge_period
                    &&& final(self).windows()[0].bond_size == bond
                    &&& final(self).resolution_fee_percentage == Some(
                        fee_config.bands@[band_index(fee_config.bands@, valuation)].percentage,
                    )
                    &&& final(self).finalized_outcome == old(self).finalized_outcome
                    &&& final(self).final_arbitrator_triggered == old(
                        self,
                    ).final_arbitrator_triggered
                    &&& final(self).claimed == old(self).claimed
                    &&& {
                        let f = *final(self);
                        let o = *old(self);
                        &&& f.id == o.id
                        &&& f.requester == o.requester
                        &&& f.settlement_time == o.settlement_time
                        &&& f.paid_fee == o.paid_fee
                        &&& f.tags == o.tags
                    }
                },
            },
    {
        proof {
            crate::fee_config::lemma_band_index_in_range(fee_config.bands@, valuation);
        }
        if self.finalized_outcome.is_some() {
            return Err(OracleError::AlreadyFinalized);
        }
        if self.resolution_windows.len() > 0 {
            return Err(OracleError::InvalidRound);
        }
        if now < self.settlement_time {
            return Err(OracleError::NotOpen);
        }
        let bond = match stake_cost(self.validity_bond, self.custom_fee) {
            Ok(c) => c,
            Err(_) => {
                return Err(OracleError::InvalidRequest);
            },
        };
        if bond == 0 {
            return Err(OracleError::InvalidRequest);
        }
        if now > u64::MAX - self.initial_challenge_period {
            return Err(OracleError::ArithmeticOverflow);
        }
        let w = ResolutionWindow::new(self.id, 0, now, self.initial_challenge_period, bond);
        self.resolution_windows.push(w);
        self.resolution_fee_percentage = Some(fee_config.resolution_fee_percentage(valuation));
        Ok(())
    }

    /// A new round can follow the last one at `now`: its bond, its window and its round
    /// number fit their types.
    pub open spec fn can_escalate(&self, now: Timestamp) -> bool {
        let w = self.windows().last();
        &&& 2 * w.bond_size <= u128::MAX
        &&& now + 2 * window_length(w) <= u64::MAX
        &&& self.windows().len() < u16::MAX
    }

    /// What staking `amount` on `o` at `now` leads to: the amount the last round takes, or
    /// why the stake is refused.
    pub open spec fn stake_check(&self, o: OutcomeModel, amount: u128, now: Timestamp) -> Result<
        nat,
        OracleError,
    > {
        let ws = self.windows();
        let w = ws.last();
        if self.finalized() is Some {
            Err(OracleError::AlreadyFinalized)
        } else if ws.len() == 0 {
            Err(OracleError::NotOpen)
        } else if !w.is_open_at(now) {
            Err(OracleError::InvalidRound)
        } else if ws.len() >= 2 && ws[ws.len() - 2].bonded() == Some(o) {
            Err(OracleError::NoChallengePossible)
        } else if w.staked_total() + w.acceptable(o, amount) > u128::MAX {
            Err(OracleError::ArithmeticOverflow)
        } else if w.staked(o) + w.acceptable(o, amount) == w.bond_size && !self.can_escalate(now) {
            Err(OracleError::ArithmeticOverflow)
        } else {
            Ok(w.acceptable(o, amount))
        }
    }

    /// `self` is `old` after `taken` of `a` went to `o` in the last round at `now`: the
    /// earlier rounds and the terms stay; if the last round became bonded, the next round
    /// follows it, empty, with twice its bond and twice its window.
    pub open spec fn staked_from(
        &self,
        old: &DataRequest,
        a: Seq<char>,
        o: OutcomeModel,
        taken: nat,
        now: Timestamp,
    ) -> bool {
        let ws = old.windows();
        let n = ws.len() - 1;
        let last = self.windows()[n];
        let next = self.windows()[n + 1];
        &&& ws.len() > 0
        &&& self.same_terms(old)
        &&& self.finalized_outcome == old.finalized_outcome
        &&& self.final_arbitrator_triggered == old.final_arbitrator_triggered
        &&& self.claimed == old.claimed
        &&& forall|i: int| 0 <= i < n ==> self.windows()[i] == ws[i]
        &&& last.same_frame(&ws[n])
        &&& last.staked_into(&ws[n], a, o, taken)
        &&& last.bonded() is None ==> self.windows().len() == ws.len()
        &&& last.bonded() is Some ==> self.windows().len() == ws.len() + 1
        &&& last.bonded() is Some ==> next.is_empty() && next.round == n + 1 && next.start_time
            == now && window_length(next) == 2 * window_length(ws[n]) && next.bond_size == 2
            * ws[n].bond_size
    }

    /// Stakes `amount` of `sender` on `outcome` at `now`, in the last round. The round takes no
    /// more than its bond needs and the rest is handed back. When the outcome reaches the
    /// bond, the next round opens at once, with twice the bond and twice the window.
    pub fn stake(&mut self, sender: &AccountId, outcome: &Outcome, amount: u128, now: Timestamp) -> (r:
        Result<(u128, u128), OracleError>)
        requires
            old(self).wf(),
        ensures
            final(self).wf(),
            match old(self).stake_check(outcome@, amount, now) {
                Err(e) => r == Err::<(u128, u128), OracleError>(e) && *final(self) == *old(self),
                Ok(taken) => r == Ok::<(u128, u128), OracleError>(
                    (taken as u128, (amount - taken) as u128),
                ) && final(self).staked_from(old(self), sender@, outcome@, taken, now),
            },
    {
        if self.finalized_outcome.is_some() {
            return Err(OracleError::AlreadyFinalized);
        }
        let n = self.resolution_windows.len();
        if n == 0 {
            return Err(OracleError::NotOpen);
        }
        let last = &self.resolution_windows[n - 1];
        if now < last.start_time || now > last.end_time {
            return Err(OracleError::InvalidRound);
        }
        if n >= 2 {
            match &self.resolution_windows[n - 2].bonded_outcome {
                Some(b) => {
                    if b.same_as(outcome) {
                        return Err(OracleError::NoChallengePossible);
                    }
                },
                None => {},
            }
        }
        let total = last.total_on(outcome);
        let room = last.bond_size - total;
        let taken = if amount <= room {
            amount
        } else {
            room
        };
        if taken > u128::MAX - last.total_staked {
            return Err(OracleError::ArithmeticOverflow);
        }
        let bond = last.bond_size;
        let length = last.end_time - last.start_time;
        let round = last.round;
        let bonds = total + taken == bond;
        if bonds && (bond > u128::MAX / 2 || length > (u64::MAX - now) / 2 || n >= 65535) {
            return Err(OracleError::ArithmeticOverflow);
        }
        let ghost ws = self.resolution_windows@;
        let mut w = match self.resolution_windows.pop() {
            Some(w) => w,
            None => {
                return Err(OracleError::NotOpen);
            },
        };
        assert(ws == self.resolution_windows@.push(w));
        assert(w == ws[n - 1]);
        let res = w.stake(sender, outcome, amount, now);
        let bonded = w.bonded_outcome.is_some();
        self.resolution_windows.push(w);
        if bonded {
            let next = ResolutionWindow::new(self.id, round + 1, now, 2 * length, 2 * bond);
            self.resolution_windows.push(next);
        }
        proof {
            let fs = self.resolution_windows@;
            assert forall|i: int| 0 <= i < n - 1 implies fs[i] == ws[i] by {}
        }
        res
    }

    /// What taking `amount` of `a`'s stake on `o` out of round `round` leads to. Only the last
    /// round can still be unbonded.
    pub open spec fn unstake_check(&self, round: u16, a: Seq<char>, o: OutcomeModel, amount: u128) -> Result<
        (),
        OracleError,
    > {
        let ws = self.windows();
        if self.finalized() is Some {
            Err(OracleError::AlreadyFinalized)
        } else if round >= ws.len() {
            Err(OracleError::InvalidRound)
        } else if ws[round as int].bonded() is Some {
            Err(OracleError::RoundAlreadyBonded)
        } else if ws[round as int].stake_of(a, o) < amount {
            Err(OracleError::InsufficientStake)
        } else {
            Ok(())
        }
    }

    /// Takes `amount` of `sender`'s stake on `outcome` out of round `round`, which must not be
    /// bonded, and returns it. A finalized request keeps all its stake for the claims.
    pub fn unstake(&mut self, sender: &AccountId, round: u16, outcome: &Outcome, amount: u128) -> (r:
        Result<u128, OracleError>)
        requires
            old(self).wf(),
        ensures
            final(self).wf(),
            match old(self).unstake_check(round, sender@, outcome@, amount) {
                Err(e) => r == Err::<u128, OracleError>(e) && *final(self) == *old(self),
                Ok(_) => {
                    let n = round as int;
                    &&& r == Ok::<u128, OracleError>(amount)
                    &&& final(self).same_terms(old(self))
                    &&& final(self).finalized_outcome == old(self).finalized_outcome
                    &&& final(self).final_arbitrator_triggered == old(
                        self,
                    ).final_arbitrator_triggered
                    &&& final(self).claimed == old(self).claimed
                    &&& final(self).windows().len() == old(self).windows().len()
                    &&& forall|i: int|
                        0 <= i < final(self).windows().len() && i != n ==> final(self).windows()[i]
                            == old(self).windows()[i]
                    &&& final(self).windows()[n].same_frame(&old(self).windows()[n])
                    &&& final(self).windows()[n].unstaked_from(
                        &old(self).windows()[n],
                        sender@,
                        outcome@,
                        amount as nat,
                    )
                },
            },
    {
        if self.finalized_outcome.is_some() {
            return Err(OracleError::AlreadyFinalized);
        }
        let n = self.resolution_windows.len();
        if round as usize >= n {
            return Err(OracleError::InvalidRound);
        }
        if self.resolution_windows[round as usize].bonded_outcome.is_some() {
            return Err(OracleError::RoundAlreadyBonded);
        }
        if self.resolution_windows[round as usize].user_stake(sender, outcome) < amount {
            return Err(OracleError::InsufficientStake);
        }
        assert(round as int == n - 1);
        let ghost ws = self.resolution_windows@;
        let mut w = match self.resolution_windows.pop() {
            Some(w) => w,
            None => {
                return Err(OracleError::InvalidRound);
            },
        };
        assert(ws == self.resolution_windows@.push(w));
        let res = w.unstake(sender, outcome, amount);
        self.resolution_windows.push(w);
        proof {
            let fs = self.resolution_windows@;
            assert forall|i: int| 0 <= i < n - 1 implies fs[i] == ws[i] by {}
        }
        res
    }

    /// What finalizing at `now` leads to: the outcome that stands, or why there is none yet.
    /// The outcome that stands is the one bonded in the last bonded round, once the round
    /// that could challenge it has closed.
    pub open spec fn finalize_check(&self, now: Timestamp) -> Result<OutcomeModel, OracleError> {
        let ws = self.windows();
        if self.finalized() is Some {
            Err(OracleError::AlreadyFinalized)
        } else if ws.len() < 2 {
            Err(OracleError::NothingBonded)
        } else if now <= ws.last().end_time {
            Err(OracleError::ChallengeWindowOpen)
        } else {
            Ok(ws[ws.len() - 2].bonded()->Some_0)
        }
    }

    /// Finalizes the request at `now`, on the outcome of the last bonded round, once the
    /// round that could challenge it closed without reaching its bond. Returns the part of
    /// the paid fee that goes back to the requester.
    pub fn finalize(&mut self, now: Timestamp) -> (r: Result<u128, OracleError>)
        requires
            old(self).wf(),
        ensures
            final(self).wf(),
            match old(self).finalize_check(now) {
                Err(e) => r == Err::<u128, OracleError>(e) && *final(self) == *old(self),
                Ok(o) => {
                    &&& r == Ok::<u128, OracleError>(old(self).requester_refund() as u128)
                    &&& final(self).finalized() == Some(o)
                    &&& !final(self).final_arbitrator_triggered
                    &&& final(self).same_terms(old(self))
                    &&& final(self).resolution_windows == old(self).resolution_windows
                    &&& final(self).claimed == old(self).claimed
                },
            },
    {
        if self.finalized_outcome.is_some() {
            return Err(OracleError::AlreadyFinalized);
        }
        let n = self.resolution_windows.len();
        if n < 2 {
            return Err(OracleError::NothingBonded);
        }
        if now <= self.resolution_windows[n - 1].end_time {
            return Err(OracleError::ChallengeWindowOpen);
        }
        let outcome = match &self.resolution_windows[n - 2].bonded_outcome {
            Some(o) => o.duplicate(),
            None => {
                return Err(OracleError::NothingBonded);
            },
        };
        self.finalized_outcome = Some(outcome);
        self.final_arbitrator_triggered = false;
        Ok(self.refund_to_requester())
    }

    /// The part of the paid fee that is not the resolution fee.
    fn refund_to_requester(&self) -> (r: u128)
        requires
            self.wf(),
        ensures
            r == self.requester_refund(),
    {
        match self.resolution_fee_percentage {
            Some(p) => self.paid_fee - fee_share(self.paid_fee, p),
            None => self.paid_fee,
        }
    }

    /// What the final arbitrator's ruling leads to: refused to anyone else, and to a request
    /// that is already finalized.
    pub open spec fn arbitration_check(&self, caller: Seq<char>) -> Result<(), OracleError> {
        if caller != self.final_arbitrator@ {
            Err(OracleError::Unauthorized)
        } else if self.finalized() is Some {
            Err(OracleError::AlreadyFinalized)
        } else {
            Ok(())
        }
    }

    /// `self` is `old` finalized by the arbitrator on `o`: the rounds and the terms stay.
    pub open spec fn arbitrated_from(&self, old: &DataRequest, o: OutcomeModel) -> bool {
        &&& self.finalized() == Some(o)
        &&& self.final_arbitrator_triggered
        &&& self.same_terms(old)
        &&& self.resolution_windows == old.resolution_windows
        &&& self.claimed == old.claimed
    }

    /// The final arbitrator finalizes the request on `outcome`, whatever its rounds hold and
    /// whether or not a window is open. Returns the part of the paid fee that goes back to
    /// the requester.
    pub fn finalize_by_arbitration(&mut self, caller: &AccountId, outcome: Outcome) -> (r: Result<
        u128,
        OracleError,
    >)
        requires
            old(self).wf(),
        ensures
            final(self).wf(),
            match old(self).arbitration_check(caller@) {
                Err(e) => r == Err::<u128, OracleError>(e) && *final(self) == *old(self),
                Ok(_) => r == Ok::<u128, OracleError>(old(self).requester_refund() as u128)
                    && final(self).arbitrated_from(
                    old(self),
                    outcome@,
                ),
            },
    {
        if !caller.eq(&self.final_arbitrator) {
            return Err(OracleError::Unauthorized);
        }
        if self.finalized_outcome.is_some() {
            return Err(OracleError::AlreadyFinalized);
        }
        let refund = self.refund_to_requester();
        self.finalized_outcome = Some(outcome);
        self.final_arbitrator_triggered = true;
        Ok(refund)
    }

    /// The fee that the stakers of the finalized outcome share.
    /// The resolution fee: the part of the paid fee, by the percentage fixed at opening,
    /// that the stakers of the finalized outcome share.
    pub open spec fn fee_pool(&self) -> nat {
        match self.resolution_fee_percentage {
            Some(p) => ((self.paid_fee as int) * (p as int) / (PERCENTAGE_DIVISOR as int)) as nat,
            None => 0,
        }
    }

    /// The rest of the paid fee, which goes back to the requester on finalization.
    pub open spec fn requester_refund(&self) -> nat {
        (self.paid_fee - self.fee_pool()) as nat
    }

    pub open spec fn user_correct_stake(&self, a: Seq<char>) -> nat {
        seq_sum(user_correct_terms(self.windows(), a, self.finalized()->Some_0))
    }

    pub open spec fn correct_stake(&self) -> nat {
        seq_sum(correct_terms(self.windows(), self.finalized()->Some_0))
    }

    /// The stake that is forfeited: everything but the stake on the finalized outcome in the
    /// rounds that bonded it.
    pub open spec fn incorrect_stake(&self) -> nat {
        (self.total_stake() - self.correct_stake()) as nat
    }

    /// The share of `a` in the forfeited stake: in proportion to `a`'s part of the stake on
    /// the finalized outcome over all the rounds that bonded it, rounded down.
    pub open spec fn stake_profit(&self, a: Seq<char>) -> nat {
        if self.correct_stake() == 0 {
            0
        } else {
            self.user_correct_stake(a) * self.incorrect_stake() / self.correct_stake()
        }
    }

    /// The fee share of `a`: in proportion to `a`'s part of the stake on the finalized
    /// outcome over all the rounds that bonded it, rounded down.
    pub open spec fn fee_profit(&self, a: Seq<char>) -> nat {
        if self.correct_stake() == 0 {
            0
        } else {
            self.user_correct_stake(a) * self.fee_pool() / self.correct_stake()
        }
    }

    pub open spec fn payout(&self, a: Seq<char>) -> nat {
        self.user_correct_stake(a) + self.stake_profit(a) + self.fee_profit(a)
    }

    /// All stake in the request's rounds, on all outcomes.
    pub open spec fn total_stake(&self) -> nat {
        seq_sum(stake_terms(self.windows()))
    }

    /// What the stakers in `s` receive together.
    pub open spec fn payouts(&self, s: Seq<Seq<char>>) -> nat {
        sum_to(s.len(), |k: int| self.payout(s[k]))
    }

    /// What a claim of `a` leads to: the amount paid, or why nothing is.
    pub open spec fn claim_check(&self, a: Seq<char>) -> Result<nat, OracleError> {
        if self.finalized() is None {
            Err(OracleError::NotFinalized)
        } else if self.has_claimed(a) {
            Err(OracleError::AlreadyClaimed)
        } else if self.total_stake() > u128::MAX || self.payout(a) > u128::MAX {
            Err(OracleError::ArithmeticOverflow)
        } else {
            Ok(self.payout(a))
        }
    }

    /// Whether `account_id` has claimed for this request.
    pub fn claimed_by(&self, account_id: &AccountId) -> (r: bool)
        ensures
            r == self.has_claimed(account_id@),
    {
        let mut j: usize = 0;
        while j < self.claimed.len()
            invariant
                j <= self.claimed@.len(),
                forall|k: int| 0 <= k < j ==> self.claimed@[k]@ != account_id@,
            decreases self.claimed@.len() - j,
        {
            if self.claimed[j].eq(account_id) {
                return true;
            }
            j += 1;
        }
        false
    }

    /// The payout of `account_id` on the finalized outcome: its correct stake back, its share
    /// of all forfeited stake and its share of the resolution fee. Fails only where an amount
    /// does not fit in 128 bits.
    pub fn calc_payout(&self, account_id: &AccountId) -> (r: Result<Payout, OracleError>)
        requires
            self.wf(),
            self.finalized() is Some,
        ensures
            (self.total_stake() > u128::MAX || self.payout(account_id@) > u128::MAX) <==> r is Err,
            r is Err ==> r == Err::<Payout, OracleError>(OracleError::ArithmeticOverflow),
            r is Ok ==> ({
                let p = r->Ok_0;
                &&& p.user_correct_stake == self.user_correct_stake(account_id@)
                &&& p.total_correct_staked == self.correct_stake()
                &&& p.total_incorrect_staked == self.incorrect_stake()
                &&& p.stake_profit == self.stake_profit(account_id@)
                &&& p.fee_profit == self.fee_profit(account_id@)
                &&& p.amount == self.payout(account_id@)
                &&& p.user_correct_stake <= p.total_correct_staked
            }),
    {
        let f = match &self.finalized_outcome {
            Some(f) => f,
            None => {
                return Err(OracleError::NotFinalized);
            },
        };
        let ghost ws = self.windows();
        let ghost fm = f@;
        let ghost a = account_id@;
        let n = self.resolution_windows.len();
        let mut u: u128 = 0;
        let mut c: u128 = 0;
        let mut total: u128 = 0;
        let mut i: usize = 0;
        while i < n
            invariant
                self.wf(),
                ws == self.windows(),
                fm == self.finalized()->Some_0,
                f@ == fm,
                a == account_id@,
                n == ws.len(),
                i <= n,
                u == seq_sum(user_correct_terms(ws, a, fm).take(i as int)),
                c == seq_sum(correct_terms(ws, fm).take(i as int)),
                total == seq_sum(stake_terms(ws).take(i as int)),
                u <= c,
                c <= total,
            decreases n - i,
        {
            let w = &self.resolution_windows[i];
            proof {
                lemma_sum_prefix(user_correct_terms(ws, a, fm), i as int);
                lemma_sum_prefix(correct_terms(ws, fm), i as int);
                lemma_sum_prefix(stake_terms(ws), i as int);
                assert(*w == ws[i as int]);
            }
            let (ci, ui, ti) = round_share(w, account_id, f);
            if ti > u128::MAX - total {
                return Err(OracleError::ArithmeticOverflow);
            }
            total = total + ti;
            c = c + ci;
            u = u + ui;
            i += 1;
        }
        proof {
            assert(user_correct_terms(ws, a, fm).take(n as int) =~= user_correct_terms(ws, a, fm));
            assert(correct_terms(ws, fm).take(n as int) =~= correct_terms(ws, fm));
            assert(stake_terms(ws).take(n as int) =~= stake_terms(ws));
        }
        let incorrect = total - c;
        let pool = match self.resolution_fee_percentage {
            Some(p) => fee_share(self.paid_fee, p),
            None => 0,
        };
        let (profit, fee) = if c == 0 {
            (0, 0)
        } else {
            proof {
                assert((u as int) * (incorrect as int) / (c as int) <= incorrect)
                    by (nonlinear_arith)
                    requires
                        u <= c,
                        c > 0,
                        incorrect >= 0,
                ;
                assert((u as int) * (pool as int) / (c as int) <= pool) by (nonlinear_arith)
                    requires
                        u <= c,
                        c > 0,
                        pool >= 0,
                ;
            }
            (calc_product(u, incorrect, c), calc_product(u, pool, c))
        };
        if profit > u128::MAX - u {
            return Err(OracleError::ArithmeticOverflow);
        }
        if fee > u128::MAX - (u + profit) {
            return Err(OracleError::ArithmeticOverflow);
        }
        Ok(
            Payout {
                user_correct_stake: u,
                total_correct_staked: c,
                total_incorrect_staked: incorrect,
                stake_profit: profit,
                fee_profit: fee,
                amount: u + profit + fee,
            },
        )
    }

    /// `self` is `old` after a claim of `a`: `a` is marked as claimed and nothing else moves.
    pub open spec fn claimed_from(&self, old: &DataRequest, a: Seq<char>) -> bool {
        &&& self.same_terms(old)
        &&& self.finalized_outcome == old.finalized_outcome
        &&& self.final_arbitrator_triggered == old.final_arbitrator_triggered
        &&& self.resolution_windows == old.resolution_windows
        &&& self.claimed@.len() == old.claimed@.len() + 1
        &&& self.claimed@.drop_last() == old.claimed@
        &&& self.claimed@.last()@ == a
    }

    /// Settles `account_id`'s stake on a finalized request, once: returns the payout and
    /// marks the account as claimed.
    pub fn claim(&mut self, account_id: &AccountId) -> (r: Result<Payout, OracleError>)
        requires
            old(self).wf(),
        ensures
            final(self).wf(),
            match old(self).claim_check(account_id@) {
                Err(e) => r == Err::<Payout, OracleError>(e) && *final(self) == *old(self),
                Ok(amount) => {
                    &&& r is Ok
                    &&& r->Ok_0.amount == amount
                    &&& r->Ok_0.user_correct_stake == old(self).user_correct_stake(account_id@)
                    &&& r->Ok_0.stake_profit == old(self).stake_profit(account_id@)
                    &&& r->Ok_0.fee_profit == old(self).fee_profit(account_id@)
                    &&& r->Ok_0.total_correct_staked == old(self).correct_stake()
                    &&& final(self).claimed_from(old(self), account_id@)
                },
            },
    {
        if self.finalized_outcome.is_none() {
            return Err(OracleError::NotFinalized);
        }
        if self.claimed_by(account_id) {
            return Err(OracleError::AlreadyClaimed);
        }
        let payout = match self.calc_payout(account_id) {
            Ok(p) => p,
            Err(e) => {
                return Err(e);
            },
        };
        self.claimed.push(account_id.clone());
        proof {
            assert(self.claimed@.drop_last() =~= old(self).claimed@);
        }
        Ok(payout)
    }
}

/// Each round asks twice the bond of the round before it, and its challenge window lasts
/// twice as long.
pub proof fn lemma_round_doubling(dr: DataRequest, n: int)
    requires
        dr.wf(),
        0 <= n,
        n + 1 < dr.windows().len(),
    ensures
        dr.windows()[n + 1].bond_size == 2 * dr.windows()[n].bond_size,
        window_length(dr.windows()[n + 1]) == 2 * window_length(dr.windows()[n]),
{
    assert(dr.windows()[n + 1].bond_size == 2 * dr.windows()[n + 1 - 1].bond_size);
}

/// A staker that has claimed on a request cannot claim on it again.
pub proof fn lemma_claim_once(before: DataRequest, after: DataRequest, a: Seq<char>)
    requires
        before.claim_check(a) is Ok,
        after.claimed_from(&before, a),
    ensures
        after.claim_check(a) == Err::<nat, OracleError>(OracleError::AlreadyClaimed),
{
    let k = after.claimed@.len() - 1;
    assert(after.claimed@[k] == after.claimed@.last());
    assert(after.has_claimed(a));
}

/// Once the arbitrator has ruled, the request stays finalized on the ruling: closing
/// windows, further finalization and further stake change nothing.
pub proof fn lemma_arbitration_final(
    before: DataRequest,
    after: DataRequest,
    caller: Seq<char>,
    o: OutcomeModel,
    now: Timestamp,
    other: OutcomeModel,
    amount: u128,
)
    requires
        before.wf(),
        before.arbitration_check(caller) is Ok,
        after.arbitrated_from(&before, o),
    ensures
        after.finalized() == Some(o),
        after.final_arbitrator_triggered,
        after.finalize_check(now) == Err::<OutcomeModel, OracleError>(
            OracleError::AlreadyFinalized,
        ),
        after.stake_check(other, amount, now) == Err::<nat, OracleError>(
            OracleError::AlreadyFinalized,
        ),
        after.arbitration_check(caller) == Err::<(), OracleError>(OracleError::AlreadyFinalized),
{
}

/// Every staker with stake on the finalized outcome in a round that bonded it is among `s`.
pub open spec fn covers_correct_stakers(dr: DataRequest, s: Seq<Seq<char>>) -> bool {
    forall|i: int|
        #![trigger dr.windows()[i]]
        0 <= i < dr.windows().len() && is_correct(dr.windows()[i], dr.finalized()->Some_0)
            ==> covers_stakers(dr.windows()[i], s, dr.finalized()->Some_0)
}

proof fn lemma_round_column(w: ResolutionWindow, s: Seq<Seq<char>>, f: OutcomeModel)
    requires
        w.wf(),
        s.no_duplicates(),
    ensures
        sum_to(s.len(), |k: int| user_share(w, s[k], f)) <= correct_share(w, f),
        (is_correct(w, f) ==> covers_stakers(w, s, f)) ==> sum_to(
            s.len(),
            |k: int| user_share(w, s[k], f),
        ) == correct_share(w, f),
{
    let ns = s.len();
    let us = |k: int| user_share(w, s[k], f);
    if is_correct(w, f) {
        lemma_stakers_within_total(w, s, f);
        lemma_sum_to_ext(ns, us, |k: int| w.stake_of(s[k], f));
    } else {
        lemma_sum_to_le(ns, us, |k: int| 0nat);
        crate::sums::lemma_sum_to_zero(ns, |k: int| 0nat);
    }
}

proof fn lemma_refunds(dr: DataRequest, s: Seq<Seq<char>>)
    requires
        dr.wf(),
        dr.finalized() is Some,
        s.no_duplicates(),
    ensures
        sum_to(s.len(), |k: int| dr.user_correct_stake(s[k])) <= dr.correct_stake(),
        covers_correct_stakers(dr, s) ==> sum_to(s.len(), |k: int| dr.user_correct_stake(s[k]))
            == dr.correct_stake(),
{
    let ws = dr.windows();
    let f = dr.finalized()->Some_0;
    let n = ws.len();
    let ns = s.len();
    let mu = |k: int, i: int| user_share(ws[i], s[k], f);
    assert forall|k: int| 0 <= k < ns implies #[trigger] dr.user_correct_stake(s[k]) == row(
        mu,
        n,
        k,
    ) by {
        let gu = |i: int| user_share(ws[i], s[k], f);
        assert(user_correct_terms(ws, s[k], f) =~= Seq::new(n, gu));
        lemma_seq_sum_is_sum_to(n, gu);
        lemma_sum_to_ext(n, gu, |i: int| mu(k, i));
    }
    let cs = |i: int| correct_share(ws[i], f);
    assert(correct_terms(ws, f) =~= Seq::new(n, cs));
    lemma_seq_sum_is_sum_to(n, cs);
    assert forall|i: int| 0 <= i < n implies #[trigger] col(mu, ns, i) <= cs(i) && (
    covers_correct_stakers(dr, s) ==> col(mu, ns, i) == cs(i)) by {
        lemma_round_column(ws[i], s, f);
        lemma_sum_to_ext(ns, |k: int| mu(k, i), |k: int| user_share(ws[i], s[k], f));
    }
    lemma_sum_to_swap(mu, ns, n);
    lemma_sum_to_ext(ns, |k: int| dr.user_correct_stake(s[k]), |k: int| row(mu, n, k));
    lemma_sum_to_le(n, |i: int| col(mu, ns, i), cs);
    if covers_correct_stakers(dr, s) {
        lemma_sum_to_ext(n, |i: int| col(mu, ns, i), cs);
    }
}

/// The stake on the finalized outcome in the rounds that bonded it is part of all stake.
proof fn lemma_correct_within_total(dr: DataRequest)
    requires
        dr.wf(),
        dr.finalized() is Some,
    ensures
        dr.correct_stake() <= dr.total_stake(),
{
    let ws = dr.windows();
    let f = dr.finalized()->Some_0;
    assert forall|i: int| 0 <= i < ws.len() implies correct_terms(ws, f)[i] <= stake_terms(ws)[i] by {
        lemma_outcome_total_le(ws[i].outcome_to_stake@, f);
    }
    crate::helpers::lemma_sum_le(correct_terms(ws, f), stake_terms(ws));
}

/// On a finalized request, the payouts of any distinct stakers and the fee that goes back to
/// the requester never exceed all stake plus the paid fee. When the finalized outcome won a
/// round and all its stakers claim, they fall short of it by less than the number of
/// rounded divisions: two per staker.
pub proof fn lemma_payouts_within_pool(dr: DataRequest, s: Seq<Seq<char>>)
    requires
        dr.wf(),
        dr.finalized() is Some,
        s.no_duplicates(),
    ensures
        dr.payouts(s) + dr.requester_refund() <= dr.total_stake() + dr.paid_fee,
        covers_correct_stakers(dr, s) && dr.correct_stake() > 0 ==> dr.total_stake()
            + dr.paid_fee < dr.payouts(s) + dr.requester_refund() + 2 * s.len(),
{
    let ns = s.len();
    let c = dr.correct_stake();
    let pool = dr.fee_pool();
    let inc = dr.incorrect_stake();
    let uk = |k: int| dr.user_correct_stake(s[k]);
    let pk = |k: int| dr.stake_profit(s[k]);
    let fk = |k: int| dr.fee_profit(s[k]);
    lemma_refunds(dr, s);
    lemma_correct_within_total(dr);
    match dr.resolution_fee_percentage {
        Some(p) => {
            assert((dr.paid_fee as int) * (p as int) / 10_000 <= dr.paid_fee) by (nonlinear_arith)
                requires
                    p <= 10_000,
            ;
        },
        None => {},
    }
    if c == 0 {
        lemma_sum_to_le(ns, pk, |k: int| 0nat);
        lemma_sum_to_le(ns, fk, |k: int| 0nat);
        crate::sums::lemma_sum_to_zero(ns, |k: int| 0nat);
    } else {
        crate::sums::lemma_shares_of_pool(ns, uk, c, inc);
        lemma_sum_to_ext(ns, pk, |k: int| (uk(k) * inc / c) as nat);
        crate::sums::lemma_shares_of_pool(ns, uk, c, pool);
        lemma_sum_to_ext(ns, fk, |k: int| (uk(k) * pool / c) as nat);
    }
    let upk = |k: int| dr.user_correct_stake(s[k]) + dr.stake_profit(s[k]);
    lemma_sum_to_add(ns, uk, pk, upk);
    lemma_sum_to_add(ns, upk, fk, |k: int| dr.payout(s[k]));
}

/// When one staker holds all the stake on the finalized outcome in the rounds that bonded
/// it, that staker receives all stake of the request and the whole resolution fee: no share
/// is rounded.
pub proof fn lemma_sole_winner(dr: DataRequest, a: Seq<char>)
    requires
        dr.wf(),
        dr.finalized() is Some,
        covers_correct_stakers(dr, seq![a]),
        dr.correct_stake() > 0,
    ensures
        dr.user_correct_stake(a) == dr.correct_stake(),
        dr.stake_profit(a) == dr.incorrect_stake(),
        dr.fee_profit(a) == dr.fee_pool(),
        dr.payout(a) == dr.total_stake() + dr.fee_pool(),
{
    let s = seq![a];
    assert(s.no_duplicates());
    lemma_refunds(dr, s);
    lemma_correct_within_total(dr);
    let g = |k: int| dr.user_correct_stake(s[k]);
    assert(s[0] == a);
    assert(sum_to(0, g) == 0);
    assert(sum_to(1, g) == sum_to(0, g) + g(0));
    assert(sum_to(1, g) == dr.user_correct_stake(a));
    let c = dr.correct_stake();
    let inc = dr.incorrect_stake();
    let pool = dr.fee_pool();
    assert(c * inc / c == inc) by (nonlinear_arith)
        requires
            c > 0,
    ;
    assert(c * pool / c == pool) by (nonlinear_arith)
        requires
            c > 0,
    ;
}

} // verus!
