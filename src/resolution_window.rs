use vstd::prelude::*;

use crate::errors::OracleError;
use crate::helpers::{lemma_sum_push, lemma_sum_single, lemma_sum_update, lemma_sum_zero, seq_sum};
use crate::sums::{
    col, lemma_seq_sum_is_sum_to, lemma_sum_to_ext, lemma_sum_to_le, lemma_sum_to_once,
    lemma_sum_to_swap, row, sum_to,
};
use crate::types::{AccountId, Outcome, OutcomeModel, Timestamp};

verus! {

/// The total staked on one outcome in a round.
pub struct OutcomeStake {
    pub outcome: Outcome,
    pub amount: u128,
}

/// What one staker has on one outcome in a round.
pub struct UserStake {
    pub account_id: AccountId,
    pub outcome: Outcome,
    pub amount: u128,
}

pub open spec fn outcome_amounts(s: Seq<OutcomeStake>, o: OutcomeModel) -> Seq<nat> {
    Seq::new(s.len(), |i: int| if s[i].outcome@ == o { s[i].amount as nat } else { 0 })
}

/// The amount recorded on outcome `o`.
pub open spec fn staked_on(s: Seq<OutcomeStake>, o: OutcomeModel) -> nat {
    seq_sum(outcome_amounts(s, o))
}

pub open spec fn all_amounts(s: Seq<OutcomeStake>) -> Seq<nat> {
    Seq::new(s.len(), |i: int| s[i].amount as nat)
}

/// The amount recorded on all outcomes together.
pub open spec fn staked_in_all(s: Seq<OutcomeStake>) -> nat {
    seq_sum(all_amounts(s))
}

pub open spec fn user_amounts(s: Seq<UserStake>, a: Seq<char>, o: OutcomeModel) -> Seq<nat> {
    Seq::new(
        s.len(),
        |i: int|
            if s[i].account_id@ == a && s[i].outcome@ == o {
                s[i].amount as nat
            } else {
                0
            },
    )
}

/// What staker `a` has on outcome `o`.
pub open spec fn user_staked(s: Seq<UserStake>, a: Seq<char>, o: OutcomeModel) -> nat {
    seq_sum(user_amounts(s, a, o))
}

pub open spec fn users_amounts(s: Seq<UserStake>, o: OutcomeModel) -> Seq<nat> {
    Seq::new(s.len(), |i: int| if s[i].outcome@ == o { s[i].amount as nat } else { 0 })
}

/// What all stakers together have on outcome `o`.
pub open spec fn users_staked_on(s: Seq<UserStake>, o: OutcomeModel) -> nat {
    seq_sum(users_amounts(s, o))
}

proof fn lemma_outcome_set(s: Seq<OutcomeStake>, i: int, e: OutcomeStake, o: OutcomeModel)
    requires
        0 <= i < s.len(),
    ensures
        staked_on(s.update(i, e), o) + outcome_amounts(s, o)[i] == staked_on(s, o)
            + outcome_amounts(s.update(i, e), o)[i],
        staked_in_all(s.update(i, e)) + s[i].amount == staked_in_all(s) + e.amount,
{
    assert(outcome_amounts(s.update(i, e), o) =~= outcome_amounts(s, o).update(
        i,
        outcome_amounts(s.update(i, e), o)[i],
    ));
    lemma_sum_update(outcome_amounts(s, o), i, outcome_amounts(s.update(i, e), o)[i]);
    assert(all_amounts(s.update(i, e)) =~= all_amounts(s).update(i, e.amount as nat));
    lemma_sum_update(all_amounts(s), i, e.amount as nat);
}

proof fn lemma_outcome_push(s: Seq<OutcomeStake>, e: OutcomeStake, o: OutcomeModel)
    ensures
        staked_on(s.push(e), o) == staked_on(s, o) + if e.outcome@ == o {
            e.amount as nat
        } else {
            0
        },
        staked_in_all(s.push(e)) == staked_in_all(s) + e.amount,
{
    assert(outcome_amounts(s.push(e), o) =~= outcome_amounts(s, o).push(
        if e.outcome@ == o {
            e.amount as nat
        } else {
            0
        },
    ));
    lemma_sum_push(outcome_amounts(s, o), if e.outcome@ == o { e.amount as nat } else { 0 });
    assert(all_amounts(s.push(e)) =~= all_amounts(s).push(e.amount as nat));
    lemma_sum_push(all_amounts(s), e.amount as nat);
}

proof fn lemma_user_set(s: Seq<UserStake>, i: int, e: UserStake, a: Seq<char>, o: OutcomeModel)
    requires
        0 <= i < s.len(),
    ensures
        user_staked(s.update(i, e), a, o) + user_amounts(s, a, o)[i] == user_staked(s, a, o)
            + user_amounts(s.update(i, e), a, o)[i],
        users_staked_on(s.update(i, e), o) + users_amounts(s, o)[i] == users_staked_on(s, o)
            + users_amounts(s.update(i, e), o)[i],
{
    assert(user_amounts(s.update(i, e), a, o) =~= user_amounts(s, a, o).update(
        i,
        user_amounts(s.update(i, e), a, o)[i],
    ));
    lemma_sum_update(user_amounts(s, a, o), i, user_amounts(s.update(i, e), a, o)[i]);
    assert(users_amounts(s.update(i, e), o) =~= users_amounts(s, o).update(
        i,
        users_amounts(s.update(i, e), o)[i],
    ));
    lemma_sum_update(users_amounts(s, o), i, users_amounts(s.update(i, e), o)[i]);
}

proof fn lemma_user_push(s: Seq<UserStake>, e: UserStake, a: Seq<char>, o: OutcomeModel)
    ensures
        user_staked(s.push(e), a, o) == user_staked(s, a, o) + if e.account_id@ == a
            && e.outcome@ == o {
            e.amount as nat
        } else {
            0
        },
        users_staked_on(s.push(e), o) == users_staked_on(s, o) + if e.outcome@ == o {
            e.amount as nat
        } else {
            0
        },
{
    let c = if e.account_id@ == a && e.outcome@ == o {
        e.amount as nat
    } else {
        0
    };
    assert(user_amounts(s.push(e), a, o) =~= user_amounts(s, a, o).push(c));
    lemma_sum_push(user_amounts(s, a, o), c);
    let d = if e.outcome@ == o {
        e.amount as nat
    } else {
        0
    };
    assert(users_amounts(s.push(e), o) =~= users_amounts(s, o).push(d));
    lemma_sum_push(users_amounts(s, o), d);
}

/// What one outcome has is part of what all outcomes have.
pub proof fn lemma_outcome_total_le(s: Seq<OutcomeStake>, o: OutcomeModel)
    ensures
        staked_on(s, o) <= staked_in_all(s),
{
    crate::helpers::lemma_sum_le(outcome_amounts(s, o), all_amounts(s));
}

/// What one staker has on an outcome is part of what all stakers have on it.
pub proof fn lemma_user_stake_le(s: Seq<UserStake>, a: Seq<char>, o: OutcomeModel)
    ensures
        user_staked(s, a, o) <= users_staked_on(s, o),
{
    crate::helpers::lemma_sum_le(user_amounts(s, a, o), users_amounts(s, o));
}

/// One round of the dispute game on one data request.
pub struct ResolutionWindow {
    pub dr_id: u64,
    pub round: u16,
    pub start_time: Timestamp,
    pub end_time: Timestamp,
    pub bond_size: u128,
    pub outcome_to_stake: Vec<OutcomeStake>,
    pub user_to_outcome_to_stake: Vec<UserStake>,
    /// The total staked in this round, on all outcomes.
    pub total_staked: u128,
    pub bonded_outcome: Option<Outcome>,
}

impl ResolutionWindow {
    pub open spec fn bonded(&self) -> Option<OutcomeModel> {
        match self.bonded_outcome {
            Some(o) => Some(o@),
            None => None,
        }
    }

    /// The total staked on `o` in this round.
    pub open spec fn staked(&self, o: OutcomeModel) -> nat {
        staked_on(self.outcome_to_stake@, o)
    }

    /// The total staked in this round, on all outcomes.
    pub open spec fn staked_total(&self) -> nat {
        staked_in_all(self.outcome_to_stake@)
    }

    /// What staker `a` has on `o` in this round.
    pub open spec fn stake_of(&self, a: Seq<char>, o: OutcomeModel) -> nat {
        user_staked(self.user_to_outcome_to_stake@, a, o)
    }

    pub open spec fn is_open_at(&self, now: Timestamp) -> bool {
        self.start_time <= now <= self.end_time
    }

    /// Stake on `o` is taken at time `now`: the round is open and no other outcome is bonded.
    pub open spec fn accepts(&self, o: OutcomeModel, now: Timestamp) -> bool {
        self.is_open_at(now) && (self.bonded() is None || self.bonded() == Some(o))
    }

    /// How much of `amount` on `o` this round takes: no more than brings `o` to the bond.
    pub open spec fn acceptable(&self, o: OutcomeModel, amount: u128) -> nat {
        let room = self.bond_size - self.staked(o);
        if amount <= room {
            amount as nat
        } else {
            room as nat
        }
    }

    /// `self` is `old` after `taken` more of `a` on `outcome`: the totals grow by it, and
    /// `outcome` becomes bonded if that brings it to the bond.
    pub open spec fn staked_into(
        &self,
        old: &ResolutionWindow,
        a: Seq<char>,
        outcome: OutcomeModel,
        taken: nat,
    ) -> bool {
        &&& forall|o: OutcomeModel| #[trigger]
            self.staked(o) == old.staked(o) + if o == outcome {
                taken
            } else {
                0
            }
        &&& forall|b: Seq<char>, o: OutcomeModel| #[trigger]
            self.stake_of(b, o) == old.stake_of(b, o) + if b == a && o == outcome {
                taken
            } else {
                0
            }
        &&& self.staked_total() == old.staked_total() + taken
        &&& self.bonded() == if old.staked(outcome) + taken == old.bond_size {
            Some(outcome)
        } else {
            old.bonded()
        }
    }

    /// Nothing is staked in the round and nothing is bonded.
    pub open spec fn is_empty(&self) -> bool {
        &&& self.bonded() is None
        &&& self.staked_total() == 0
        &&& forall|o: OutcomeModel| #[trigger] self.staked(o) == 0
        &&& forall|a: Seq<char>, o: OutcomeModel| #[trigger] self.stake_of(a, o) == 0
    }

    /// `self` is `old` after `a` took `amount` off `outcome`: the totals shrink by it and the
    /// round stays unbonded.
    pub open spec fn unstaked_from(
        &self,
        old: &ResolutionWindow,
        a: Seq<char>,
        outcome: OutcomeModel,
        amount: nat,
    ) -> bool {
        &&& self.bonded() is None
        &&& forall|o: OutcomeModel| #[trigger]
            self.staked(o) == old.staked(o) - if o == outcome {
                amount as int
            } else {
                0
            }
        &&& forall|b: Seq<char>, o: OutcomeModel| #[trigger]
            self.stake_of(b, o) == old.stake_of(b, o) - if b == a && o == outcome {
                amount as int
            } else {
                0
            }
        &&& self.staked_total() == old.staked_total() - amount
    }

    pub open spec fn same_frame(&self, other: &ResolutionWindow) -> bool {
        &&& self.dr_id == other.dr_id
        &&& self.round == other.round
        &&& self.start_time == other.start_time
        &&& self.end_time == other.end_time
        &&& self.bond_size == other.bond_size
    }

    /// The bookkeeping of the round is consistent: one entry per outcome and per staker and
    /// outcome, and the stakers' amounts on an outcome add up to its total.
    pub open spec fn wf_ledger(&self) -> bool {
        let os = self.outcome_to_stake@;
        let us = self.user_to_outcome_to_stake@;
        &&& forall|i: int, j: int|
            0 <= i < os.len() && 0 <= j < os.len() && i != j ==> os[i].outcome@ != os[j].outcome@
        &&& forall|i: int, j: int|
            0 <= i < us.len() && 0 <= j < us.len() && i != j ==> !(us[i].account_id@
                == us[j].account_id@ && us[i].outcome@ == us[j].outcome@)
        &&& forall|o: OutcomeModel| #[trigger] self.staked(o) == users_staked_on(us, o)
        &&& self.total_staked == self.staked_total()
    }

    /// The round is consistent, no outcome has more than the bond, and the bonded outcome,
    /// if any, is the one outcome that has exactly the bond.
    pub open spec fn wf(&self) -> bool {
        &&& self.wf_ledger()
        &&& self.bond_size > 0
        &&& self.start_time <= self.end_time
        &&& forall|o: OutcomeModel| #[trigger] self.staked(o) <= self.bond_size
        &&& forall|o: OutcomeModel|
            #![trigger self.staked(o)]
            (self.staked(o) == self.bond_size) == (self.bonded() == Some(o))
    }

    /// A round that opens at `start_time`, lasts `challenge_period` and asks `bond_size`.
    pub fn new(
        dr_id: u64,
        round: u16,
        start_time: Timestamp,
        challenge_period: u64,
        bond_size: u128,
    ) -> (w: ResolutionWindow)
        requires
            bond_size > 0,
            start_time + challenge_period <= u64::MAX,
        ensures
            w.wf(),
            w.dr_id == dr_id,
            w.round == round,
            w.start_time == start_time,
            w.end_time == start_time + challenge_period,
            w.bond_size == bond_size,
            w.is_empty(),
    {
        let w = ResolutionWindow {
            dr_id,
            round,
            start_time,
            end_time: start_time + challenge_period,
            bond_size,
            outcome_to_stake: Vec::new(),
            user_to_outcome_to_stake: Vec::new(),
            total_staked: 0,
            bonded_outcome: None,
        };
        assert(all_amounts(w.outcome_to_stake@) =~= Seq::empty());
        assert forall|o: OutcomeModel| #[trigger] w.staked(o) == 0 by {
            assert(outcome_amounts(w.outcome_to_stake@, o) =~= Seq::empty());
        }
        assert forall|o: OutcomeModel|
            #[trigger] users_staked_on(w.user_to_outcome_to_stake@, o) == 0 by {
            assert(users_amounts(w.user_to_outcome_to_stake@, o) =~= Seq::empty());
        }
        assert forall|a: Seq<char>, o: OutcomeModel| #[trigger] w.stake_of(a, o) == 0 by {
            assert(user_amounts(w.user_to_outcome_to_stake@, a, o) =~= Seq::empty());
        }
        w
    }

    fn find_outcome(&self, o: &Outcome) -> (r: Option<usize>)
        ensures
            match r {
                Some(i) => i < self.outcome_to_stake@.len() && self.outcome_to_stake@[i as int].outcome@
                    == o@,
                None => forall|j: int|
                    0 <= j < self.outcome_to_stake@.len() ==> self.outcome_to_stake@[j].outcome@
                        != o@,
            },
    {
        let mut i: usize = 0;
        while i < self.outcome_to_stake.len()
            invariant
                i <= self.outcome_to_stake@.len(),
                forall|j: int| 0 <= j < i ==> self.outcome_to_stake@[j].outcome@ != o@,
            decreases self.outcome_to_stake@.len() - i,
        {
            if self.outcome_to_stake[i].outcome.same_as(o) {
                return Some(i);
            }
            i += 1;
        }
        None
    }

    fn find_user_stake(&self, a: &AccountId, o: &Outcome) -> (r: Option<usize>)
        ensures
            match r {
                Some(i) => i < self.user_to_outcome_to_stake@.len()
                    && self.user_to_outcome_to_stake@[i as int].account_id@ == a@
                    && self.user_to_outcome_to_stake@[i as int].outcome@ == o@,
                None => forall|j: int|
                    0 <= j < self.user_to_outcome_to_stake@.len() ==> !(
                    self.user_to_outcome_to_stake@[j].account_id@ == a@
                        && self.user_to_outcome_to_stake@[j].outcome@ == o@),
            },
    {
        let mut i: usize = 0;
        while i < self.user_to_outcome_to_stake.len()
            invariant
                i <= self.user_to_outcome_to_stake@.len(),
                forall|j: int|
                    0 <= j < i ==> !(self.user_to_outcome_to_stake@[j].account_id@ == a@
                        && self.user_to_outcome_to_stake@[j].outcome@ == o@),
            decreases self.user_to_outcome_to_stake@.len() - i,
        {
            let e = &self.user_to_outcome_to_stake[i];
            if e.account_id.eq(a) && e.outcome.same_as(o) {
                return Some(i);
            }
            i += 1;
        }
        None
    }

    proof fn lemma_staked_at(&self, r: Option<usize>, o: OutcomeModel)
        requires
            self.wf_ledger(),
            match r {
                Some(i) => i < self.outcome_to_stake@.len() && self.outcome_to_stake@[i as int].outcome@
                    == o,
                None => forall|j: int|
                    0 <= j < self.outcome_to_stake@.len() ==> self.outcome_to_stake@[j].outcome@
                        != o,
            },
        ensures
            self.staked(o) == match r {
                Some(i) => self.outcome_to_stake@[i as int].amount as nat,
                None => 0,
            },
    {
        let s = outcome_amounts(self.outcome_to_stake@, o);
        match r {
            Some(i) => lemma_sum_single(s, i as int),
            None => lemma_sum_zero(s),
        }
    }

    proof fn lemma_user_staked_at(&self, r: Option<usize>, a: Seq<char>, o: OutcomeModel)
        requires
            self.wf_ledger(),
            match r {
                Some(i) => i < self.user_to_outcome_to_stake@.len()
                    && self.user_to_outcome_to_stake@[i as int].account_id@ == a
                    && self.user_to_outcome_to_stake@[i as int].outcome@ == o,
                None => forall|j: int|
                    0 <= j < self.user_to_outcome_to_stake@.len() ==> !(
                    self.user_to_outcome_to_stake@[j].account_id@ == a
                        && self.user_to_outcome_to_stake@[j].outcome@ == o),
            },
        ensures
            self.stake_of(a, o) == match r {
                Some(i) => self.user_to_outcome_to_stake@[i as int].amount as nat,
                None => 0,
            },
            self.stake_of(a, o) <= self.staked(o),
    {
        let s = user_amounts(self.user_to_outcome_to_stake@, a, o);
        match r {
            Some(i) => lemma_sum_single(s, i as int),
            None => lemma_sum_zero(s),
        }
        let t = users_amounts(self.user_to_outcome_to_stake@, o);
        crate::helpers::lemma_sum_le(s, t);
    }

    /// The amount staked on `outcome` in this round.
    pub fn total_on(&self, outcome: &Outcome) -> (r: u128)
        requires
            self.wf(),
        ensures
            r == self.staked(outcome@),
    {
        let oi = self.find_outcome(outcome);
        proof {
            self.lemma_staked_at(oi, outcome@);
        }
        match oi {
            Some(i) => self.outcome_to_stake[i].amount,
            None => 0,
        }
    }

    /// The amount `account_id` has staked on `outcome` in this round.
    pub fn user_stake(&self, account_id: &AccountId, outcome: &Outcome) -> (r: u128)
        requires
            self.wf(),
        ensures
            r == self.stake_of(account_id@, outcome@),
    {
        let ui = self.find_user_stake(account_id, outcome);
        proof {
            self.lemma_user_staked_at(ui, account_id@, outcome@);
        }
        match ui {
            Some(i) => self.user_to_outcome_to_stake[i].amount,
            None => 0,
        }
    }

    /// Adds `amount` to, or takes it from, what `sender` has on `outcome` and the outcome's
    /// total.
    fn shift_stake(&mut self, sender: &AccountId, outcome: &Outcome, amount: u128, add: bool)
        requires
            old(self).wf_ledger(),
            add ==> old(self).staked(outcome@) + amount <= u128::MAX,
            add ==> old(self).total_staked + amount <= u128::MAX,
            !add ==> old(self).stake_of(sender@, outcome@) >= amount,
        ensures
            final(self).wf_ledger(),
            final(self).same_frame(old(self)),
            final(self).bonded_outcome == old(self).bonded_outcome,
            forall|o: OutcomeModel| #[trigger]
                final(self).staked(o) == if o != outcome@ {
                    old(self).staked(o) as int
                } else if add {
                    old(self).staked(o) + amount
                } else {
                    old(self).staked(o) - amount
                },
            forall|a: Seq<char>, o: OutcomeModel| #[trigger]
                final(self).stake_of(a, o) == if a != sender@ || o != outcome@ {
                    old(self).stake_of(a, o) as int
                } else if add {
                    old(self).stake_of(a, o) + amount
                } else {
                    old(self).stake_of(a, o) - amount
                },
            final(self).staked_total() == if add {
                old(self).staked_total() + amount
            } else {
                old(self).staked_total() - amount
            },
    {
        let ghost pre = *self;
        let oi = self.find_outcome(outcome);
        let ui = self.find_user_stake(sender, outcome);
        proof {
            pre.lemma_staked_at(oi, outcome@);
            pre.lemma_user_staked_at(ui, sender@, outcome@);
        }
        let total: u128 = match oi {
            Some(i) => self.outcome_to_stake[i].amount,
            None => 0,
        };
        let mine: u128 = match ui {
            Some(i) => self.user_to_outcome_to_stake[i].amount,
            None => 0,
        };
        let new_total = if add {
            total + amount
        } else {
            total - amount
        };
        let new_mine = if add {
            mine + amount
        } else {
            mine - amount
        };
        let oe = OutcomeStake { outcome: outcome.duplicate(), amount: new_total };
        let ue = UserStake { account_id: sender.clone(), outcome: outcome.duplicate(), amount: new_mine };
        if add {
            self.total_staked = self.total_staked + amount;
        } else {
            proof {
                lemma_outcome_total_le(pre.outcome_to_stake@, outcome@);
            }
            self.total_staked = self.total_staked - amount;
        }
        let ghost os = self.outcome_to_stake@;
        let ghost us = self.user_to_outcome_to_stake@;
        match oi {
            Some(i) => {
                self.outcome_to_stake.set(i, oe);
                proof {
                    assert forall|o: OutcomeModel| #[trigger]
                        self.staked(o) == if o != outcome@ {
                            pre.staked(o) as int
                        } else if add {
                            pre.staked(o) + amount
                        } else {
                            pre.staked(o) - amount
                        } by {
                        lemma_outcome_set(os, i as int, oe, o);
                    }
                    lemma_outcome_set(os, i as int, oe, outcome@);
                }
            },
            None => {
                self.outcome_to_stake.push(oe);
                proof {
                    assert forall|o: OutcomeModel| #[trigger]
                        self.staked(o) == if o != outcome@ {
                            pre.staked(o) as int
                        } else if add {
                            pre.staked(o) + amount
                        } else {
                            pre.staked(o) - amount
                        } by {
                        lemma_outcome_push(os, oe, o);
                    }
                    lemma_outcome_push(os, oe, outcome@);
                }
            },
        }
        let ghost mid = *self;
        match ui {
            Some(i) => {
                self.user_to_outcome_to_stake.set(i, ue);
                proof {
                    assert forall|o: OutcomeModel| #[trigger]
                        self.staked(o) == mid.staked(o) by {
                        assert(self.outcome_to_stake@ == mid.outcome_to_stake@);
                    }
                    assert forall|a: Seq<char>, o: OutcomeModel| #[trigger]
                        self.stake_of(a, o) == if a != sender@ || o != outcome@ {
                            pre.stake_of(a, o) as int
                        } else if add {
                            pre.stake_of(a, o) + amount
                        } else {
                            pre.stake_of(a, o) - amount
                        } by {
                        lemma_user_set(us, i as int, ue, a, o);
                    }
                    assert forall|o: OutcomeModel| #[trigger]
                        self.staked(o) == users_staked_on(self.user_to_outcome_to_stake@, o) by {
                        assert(pre.staked(o) == users_staked_on(us, o));
                        assert(users_amounts(us, o)[i as int] == if us[i as int].outcome@ == o {
                            us[i as int].amount as nat
                        } else {
                            0
                        });
                        lemma_user_set(us, i as int, ue, sender@, o);
                    }
                }
            },
            None => {
                self.user_to_outcome_to_stake.push(ue);
                proof {
                    assert forall|o: OutcomeModel| #[trigger]
                        self.staked(o) == mid.staked(o) by {
                        assert(self.outcome_to_stake@ == mid.outcome_to_stake@);
                    }
                    assert forall|a: Seq<char>, o: OutcomeModel| #[trigger]
                        self.stake_of(a, o) == if a != sender@ || o != outcome@ {
                            pre.stake_of(a, o) as int
                        } else if add {
                            pre.stake_of(a, o) + amount
                        } else {
                            pre.stake_of(a, o) - amount
                        } by {
                        lemma_user_push(us, ue, a, o);
                    }
                    assert forall|o: OutcomeModel| #[trigger]
                        self.staked(o) == users_staked_on(self.user_to_outcome_to_stake@, o) by {
                        assert(pre.staked(o) == users_staked_on(us, o));
                        lemma_user_push(us, ue, sender@, o);
                    }
                }
            },
        }
    }

    /// Stakes `amount` of `sender` on `outcome` at time `now`. The round takes no more than
    /// brings the outcome to the bond; it returns what it took and what it hands back. The
    /// outcome that reaches the bond becomes the round's bonded outcome.
    pub fn stake(&mut self, sender: &AccountId, outcome: &Outcome, amount: u128, now: Timestamp) -> (r:
        Result<(u128, u128), OracleError>)
        requires
            old(self).wf(),
        ensures
            final(self).wf(),
            final(self).same_frame(old(self)),
            !old(self).is_open_at(now) ==> r == Err::<(u128, u128), OracleError>(
                OracleError::InvalidRound,
            ) && *final(self) == *old(self),
            old(self).is_open_at(now) && !old(self).accepts(outcome@, now) ==> r == Err::<
                (u128, u128),
                OracleError,
            >(OracleError::OutcomeAlreadyBonded) && *final(self) == *old(self),
            old(self).accepts(outcome@, now) && old(self).staked_total() + old(self).acceptable(
                outcome@,
                amount,
            ) > u128::MAX ==> r == Err::<(u128, u128), OracleError>(
                OracleError::ArithmeticOverflow,
            ) && *final(self) == *old(self),
            old(self).accepts(outcome@, now) && old(self).staked_total() + old(self).acceptable(
                outcome@,
                amount,
            ) <= u128::MAX ==> ({
                let taken = old(self).acceptable(outcome@, amount);
                &&& r == Ok::<(u128, u128), OracleError>((taken as u128, (amount - taken) as u128))
                &&& final(self).staked_into(old(self), sender@, outcome@, taken)
            }),
    {
        if now < self.start_time || now > self.end_time {
            return Err(OracleError::InvalidRound);
        }
        match &self.bonded_outcome {
            Some(b) => {
                if !b.same_as(outcome) {
                    return Err(OracleError::OutcomeAlreadyBonded);
                }
            },
            None => {},
        }
        let ghost pre = *self;
        let total = self.total_on(outcome);
        let room = self.bond_size - total;
        let taken = if amount <= room {
            amount
        } else {
            room
        };
        if taken > u128::MAX - self.total_staked {
            return Err(OracleError::ArithmeticOverflow);
        }
        self.shift_stake(sender, outcome, taken, true);
        let ghost mid = *self;
        if total + taken == self.bond_size {
            self.bonded_outcome = Some(outcome.duplicate());
        }
        proof {
            assert forall|o: OutcomeModel| #[trigger]
                self.staked(o) == pre.staked(o) + if o == outcome@ {
                    taken as nat
                } else {
                    0
                } by {
                assert(self.outcome_to_stake@ == mid.outcome_to_stake@);
                assert(mid.staked(o) == pre.staked(o) + if o == outcome@ {
                    taken as nat
                } else {
                    0
                });
            }
            assert forall|a: Seq<char>, o: OutcomeModel| #[trigger]
                self.stake_of(a, o) == mid.stake_of(a, o) by {
                assert(self.user_to_outcome_to_stake@ == mid.user_to_outcome_to_stake@);
            }
            assert(self.outcome_to_stake@ == mid.outcome_to_stake@);
            assert(self.user_to_outcome_to_stake@ == mid.user_to_outcome_to_stake@);
            assert forall|o: OutcomeModel| #[trigger]
                self.staked(o) == users_staked_on(self.user_to_outcome_to_stake@, o) by {
                assert(mid.staked(o) == users_staked_on(mid.user_to_outcome_to_stake@, o));
            }
            assert forall|o: OutcomeModel| #![trigger self.staked(o)]
                (self.staked(o) == self.bond_size) == (self.bonded() == Some(o)) by {
                assert(pre.staked(o) <= pre.bond_size);
                assert((pre.staked(o) == pre.bond_size) == (pre.bonded() == Some(o)));
            }
            assert forall|o: OutcomeModel| #[trigger] self.staked(o) <= self.bond_size by {
                assert(pre.staked(o) <= pre.bond_size);
            }
        }
        Ok((taken, amount - taken))
    }

    /// Takes `amount` of `sender`'s stake on `outcome` out of the round and returns it. A
    /// bonded round keeps its stake.
    pub fn unstake(&mut self, sender: &AccountId, outcome: &Outcome, amount: u128) -> (r: Result<
        u128,
        OracleError,
    >)
        requires
            old(self).wf(),
        ensures
            final(self).wf(),
            final(self).same_frame(old(self)),
            old(self).bonded() is Some ==> r == Err::<u128, OracleError>(
                OracleError::RoundAlreadyBonded,
            ) && *final(self) == *old(self),
            old(self).bonded() is None && old(self).stake_of(sender@, outcome@) < amount ==> r
                == Err::<u128, OracleError>(OracleError::InsufficientStake) && *final(self)
                == *old(self),
            old(self).bonded() is None && old(self).stake_of(sender@, outcome@) >= amount ==> r
                == Ok::<u128, OracleError>(amount) && final(self).unstaked_from(
                old(self),
                sender@,
                outcome@,
                amount as nat,
            ),
    {
        if self.bonded_outcome.is_some() {
            return Err(OracleError::RoundAlreadyBonded);
        }
        let mine = self.user_stake(sender, outcome);
        if mine < amount {
            return Err(OracleError::InsufficientStake);
        }
        let ghost pre = *self;
        self.shift_stake(sender, outcome, amount, false);
        proof {
            assert forall|o: OutcomeModel| #![trigger self.staked(o)]
                (self.staked(o) == self.bond_size) == (self.bonded() == Some(o)) by {
                assert(pre.staked(o) <= pre.bond_size);
                assert((pre.staked(o) == pre.bond_size) == (pre.bonded() == Some(o)));
            }
            assert forall|o: OutcomeModel| #[trigger] self.staked(o) <= self.bond_size by {
                assert(pre.staked(o) <= pre.bond_size);
            }
        }
        Ok(amount)
    }
}

/// In a consistent round no outcome holds more than the bond, and an outcome holds exactly
/// the bond when, and only when, it is the round's bonded outcome.
pub proof fn lemma_stake_within_bond(w: ResolutionWindow, o: OutcomeModel)
    requires
        w.wf(),
    ensures
        w.staked(o) <= w.bond_size,
        (w.staked(o) == w.bond_size) <==> (w.bonded() == Some(o)),
{
}

/// A round takes stake only up to its bond: what it takes of any amount never carries an
/// outcome past the bond, and it takes nothing more for an outcome already bonded. The rest
/// is handed back.
pub proof fn lemma_no_overshoot(w: ResolutionWindow, o: OutcomeModel, amount: u128)
    requires
        w.wf(),
    ensures
        w.staked(o) + w.acceptable(o, amount) <= w.bond_size,
        w.acceptable(o, amount) <= amount,
        w.bonded() == Some(o) ==> w.acceptable(o, amount) == 0,
{
}

/// Every staker with stake on `f` in round `w` is among `s`.
pub open spec fn covers_stakers(w: ResolutionWindow, s: Seq<Seq<char>>, f: OutcomeModel) -> bool {
    forall|j: int|
        0 <= j < w.user_to_outcome_to_stake@.len() && w.user_to_outcome_to_stake@[j].outcome@ == f
            && w.user_to_outcome_to_stake@[j].amount > 0 ==> s.contains(
            #[trigger] w.user_to_outcome_to_stake@[j].account_id@,
        )
}

/// Distinct stakers together have no more on an outcome than the round's total on it, and
/// exactly that total when they include every staker on it.
pub proof fn lemma_stakers_within_total(w: ResolutionWindow, s: Seq<Seq<char>>, f: OutcomeModel)
    requires
        w.wf(),
        s.no_duplicates(),
    ensures
        sum_to(s.len(), |k: int| w.stake_of(s[k], f)) <= w.staked(f),
        covers_stakers(w, s, f) ==> sum_to(s.len(), |k: int| w.stake_of(s[k], f)) == w.staked(f),
{
    let us = w.user_to_outcome_to_stake@;
    let nu = us.len();
    let ns = s.len();
    let m = |k: int, j: int|
        if us[j].account_id@ == s[k] && us[j].outcome@ == f {
            us[j].amount as nat
        } else {
            0
        };
    let d = |j: int|
        if us[j].outcome@ == f {
            us[j].amount as nat
        } else {
            0
        };
    assert forall|k: int| 0 <= k < ns implies #[trigger] w.stake_of(s[k], f) == row(m, nu, k) by {
        let g = |j: int|
            if us[j].account_id@ == s[k] && us[j].outcome@ == f {
                us[j].amount as nat
            } else {
                0
            };
        assert(user_amounts(us, s[k], f) =~= Seq::new(nu, g));
        lemma_seq_sum_is_sum_to(nu, g);
        lemma_sum_to_ext(nu, g, |j: int| m(k, j));
    }
    lemma_sum_to_ext(ns, |k: int| w.stake_of(s[k], f), |k: int| row(m, nu, k));
    lemma_sum_to_swap(m, ns, nu);
    assert forall|j: int| 0 <= j < nu implies #[trigger] col(m, ns, j) <= d(j) && (covers_stakers(
        w,
        s,
        f,
    ) ==> col(m, ns, j) == d(j)) by {
        let x = us[j].account_id@;
        let v = d(j);
        lemma_sum_to_once(s, ns, x, v);
        lemma_sum_to_ext(ns, |k: int| m(k, j), |k: int| if s[k] == x { v } else { 0 });
        if covers_stakers(w, s, f) && v > 0 {
            assert(s.contains(us[j].account_id@));
        }
        if v == 0 {
            lemma_sum_to_le(ns, |k: int| if s[k] == x { v } else { 0 }, |k: int| 0nat);
            crate::sums::lemma_sum_to_zero(ns, |k: int| 0nat);
        }
    }
    lemma_sum_to_le(nu, |j: int| col(m, ns, j), d);
    if covers_stakers(w, s, f) {
        lemma_sum_to_ext(nu, |j: int| col(m, ns, j), d);
    }
    assert(users_amounts(us, f) =~= Seq::new(nu, d));
    lemma_seq_sum_is_sum_to(nu, d);
}

} // verus!
