use vstd::prelude::*;

use crate::callback_args::NewDataRequestArgs;
use crate::data_request::DataRequest;
use crate::errors::OracleError;
use crate::oracle_config::OracleConfig;
use crate::requester_handler::Requester;
use crate::data_request::Payout;
use crate::types::{AccountId, Outcome, Timestamp};

verus! {

/// A request names at most this many sources.
pub const MAX_SOURCES: usize = 8;

/// The oracle: its configurations, the latest last, and its data requests by id.
pub struct Contract {
    pub configs: Vec<OracleConfig>,
    pub data_requests: Vec<DataRequest>,
}

/// The request parameters are within the policy of `config`.
pub open spec fn request_in_policy(config: OracleConfig, args: NewDataRequestArgs) -> bool {
    &&& args.sources@.len() <= MAX_SOURCES
    &&& args.challenge_period >= config.min_initial_challenge_window_duration
    &&& args.challenge_period <= 3 * config.default_challenge_window_duration
    &&& match args.outcomes {
        Some(o) => o@.len() <= config.max_outcomes,
        None => true,
    }
}

impl Contract {
    pub open spec fn wf(&self) -> bool {
        &&& self.configs@.len() > 0
        &&& forall|i: int| 0 <= i < self.configs@.len() ==> (#[trigger] self.configs@[i]).fee.wf()
        &&& forall|i: int|
            #![trigger self.data_requests@[i]]
            0 <= i < self.data_requests@.len() ==> self.data_requests@[i].wf()
                && self.data_requests@[i].id == i
    }

    pub open spec fn config(&self) -> OracleConfig {
        self.configs@.last()
    }

    /// An oracle with one configuration and no requests.
    pub fn new(config: OracleConfig) -> (r: Self)
        requires
            config.fee.wf(),
        ensures
            r.wf(),
            r.configs@ == seq![config],
            r.data_requests@.len() == 0,
    {
        let mut configs = Vec::new();
        configs.push(config);
        Contract { configs, data_requests: Vec::new() }
    }

    fn current_config(&self) -> (r: &OracleConfig)
        requires
            self.wf(),
        ensures
            *r == self.config(),
    {
        &self.configs[self.configs.len() - 1]
    }

    /// Refuses anyone but the governance account of the latest configuration.
    pub fn assert_gov(&self, caller: &AccountId) -> (r: Result<(), OracleError>)
        requires
            self.wf(),
        ensures
            r is Ok <==> caller@ == self.config().gov@,
            r is Err ==> r == Err::<(), OracleError>(OracleError::Unauthorized),
    {
        if caller.eq(&self.current_config().gov) {
            Ok(())
        } else {
            Err(OracleError::Unauthorized)
        }
    }

    /// Refuses request parameters outside the latest configuration's policy.
    pub fn dr_validate(&self, data_request: &NewDataRequestArgs) -> (r: Result<(), OracleError>)
        requires
            self.wf(),
        ensures
            r is Ok <==> request_in_policy(self.config(), *data_request),
            r is Err ==> r == Err::<(), OracleError>(OracleError::InvalidRequest),
    {
        let config = self.current_config();
        if data_request.sources.len() > MAX_SOURCES {
            return Err(OracleError::InvalidRequest);
        }
        if data_request.challenge_period < config.min_initial_challenge_window_duration {
            return Err(OracleError::InvalidRequest);
        }
        if config.default_challenge_window_duration <= u64::MAX / 3
            && data_request.challenge_period > config.default_challenge_window_duration * 3 {
            return Err(OracleError::InvalidRequest);
        }
        match &data_request.outcomes {
            Some(o) => {
                if o.len() > config.max_outcomes as usize {
                    return Err(OracleError::InvalidRequest);
                }
            },
            None => {},
        }
        Ok(())
    }

    /// Whether a request with this id exists.
    pub fn dr_exists(&self, id: u64) -> (r: bool)
        ensures
            r == (id < self.data_requests@.len()),
    {
        (id as usize) < self.data_requests.len() && id <= usize::MAX as u64
    }

    /// Creates a data request from `requester`, who paid `amount` as its fee, once the
    /// parameters pass validation. Returns the new request's id.
    pub fn dr_new(&mut self, requester: Requester, amount: u128, payload: NewDataRequestArgs) -> (r:
        Result<u64, OracleError>)
        requires
            old(self).wf(),
            old(self).data_requests@.len() < u64::MAX,
        ensures
            final(self).wf(),
            final(self).configs == old(self).configs,
            r is Ok <==> request_in_policy(old(self).config(), payload),
            r is Err ==> r == Err::<u64, OracleError>(OracleError::InvalidRequest) && *final(self)
                == *old(self),
            r is Ok ==> ({
                let id = r->Ok_0;
                let dr = final(self).data_requests@[id as int];
                &&& id == old(self).data_requests@.len()
                &&& final(self).data_requests@ == old(self).data_requests@.push(dr)
                &&& dr.id == id
                &&& dr.paid_fee == amount
                &&& dr.validity_bond == old(self).config().validity_bond
                &&& dr.final_arbitrator == old(self).config().final_arbitrator
                &&& dr.settlement_time == payload.settlement_time
                &&& dr.initial_challenge_period == payload.challenge_period
                &&& dr.windows().len() == 0
                &&& dr.finalized() is None
            }),
    {
        match self.dr_validate(&payload) {
            Ok(()) => {},
            Err(e) => {
                return Err(e);
            },
        }
        let id = self.data_requests.len() as u64;
        let config = self.current_config();
        let dr = DataRequest::new(
            id,
            requester,
            payload,
            amount,
            config.validity_bond,
            config.final_arbitrator.clone(),
            Vec::new(),
        );
        self.data_requests.push(dr);
        Ok(id)
    }

    /// Completes a request creation once the fetch it waited on has reported, and returns
    /// what goes back to `sender`. Where the fetch failed nothing is created and the whole
    /// payment goes back; otherwise the request is created as `dr_new` creates it, with id
    /// the number of requests before it, and nothing goes back.
    pub fn ft_dr_new_callback(
        &mut self,
        sender: Requester,
        amount: u128,
        payload: NewDataRequestArgs,
        upstream_succeeded: bool,
    ) -> (r: Result<u128, OracleError>)
        requires
            old(self).wf(),
            old(self).data_requests@.len() < u64::MAX,
        ensures
            final(self).wf(),
            !upstream_succeeded ==> r == Ok::<u128, OracleError>(amount)
                && *final(self) == *old(self),
            upstream_succeeded ==> (r is Ok <==> request_in_policy(old(self).config(), payload)),
            upstream_succeeded && r is Ok ==> r == Ok::<u128, OracleError>(0),
            upstream_succeeded && r is Ok ==> final(self).data_requests@.len()
                == old(self).data_requests@.len() + 1,
            upstream_succeeded && r is Ok ==> final(self).data_requests@.drop_last()
                == old(self).data_requests@,
            upstream_succeeded && r is Ok ==> final(self).data_requests@.last().paid_fee == amount,
            r is Err ==> r == Err::<u128, OracleError>(OracleError::InvalidRequest) && *final(self)
                == *old(self),
    {
        if !upstream_succeeded {
            return Ok(amount);
        }
        match self.dr_new(sender, amount, payload) {
            Ok(_) => {
                proof {
                    assert(self.data_requests@.drop_last() =~= old(self).data_requests@);
                }
                Ok(0)
            },
            Err(e) => Err(e),
        }
    }

    /// Every request but `id` is as it was.
    pub open spec fn others_unchanged(&self, old: &Contract, id: u64) -> bool {
        &&& self.configs == old.configs
        &&& self.data_requests@.len() == old.data_requests@.len()
        &&& forall|i: int|
            0 <= i < self.data_requests@.len() && i != id ==> self.data_requests@[i]
                == old.data_requests@[i]
    }

    /// Opens request `id` at `now`, with `valuation` the fetched valuation of its target
    /// contract and the fee bands of the latest configuration; see `DataRequest::open`.
    pub fn dr_open(&mut self, id: u64, now: Timestamp, valuation: u128) -> (r: Result<(), OracleError>)
        requires
            old(self).wf(),
        ensures
            final(self).wf(),
            id >= old(self).data_requests@.len() ==> r == Err::<(), OracleError>(
                OracleError::NoSuchRequest,
            ) && *final(self) == *old(self),
            id < old(self).data_requests@.len() ==> ({
                let before = old(self).data_requests@[id as int];
                let after = final(self).data_requests@[id as int];
                &&& final(self).others_unchanged(old(self), id)
                &&& match before.open_check(now) {
                    Err(e) => r == Err::<(), OracleError>(e) && after == before,
                    Ok(bond) => r == Ok::<(), OracleError>(()) && after.windows().len() == 1
                        && after.windows()[0].bond_size == bond,
                }
            }),
    {
        if id as usize >= self.data_requests.len() || id > usize::MAX as u64 {
            return Err(OracleError::NoSuchRequest);
        }
        let i = id as usize;
        let mut dr = self.data_requests.remove(i);
        let r = dr.open(now, valuation, &self.configs[self.configs.len() - 1].fee);
        self.data_requests.insert(i, dr);
        proof {
            assert forall|j: int| 0 <= j < self.data_requests@.len() && j != i implies
                self.data_requests@[j] == old(self).data_requests@[j] by {}
        }
        r
    }

    /// Stakes on request `id`; see `DataRequest::stake`.
    pub fn dr_stake(
        &mut self,
        id: u64,
        sender: &AccountId,
        outcome: &Outcome,
        amount: u128,
        now: Timestamp,
    ) -> (r: Result<(u128, u128), OracleError>)
        requires
            old(self).wf(),
        ensures
            final(self).wf(),
            id >= old(self).data_requests@.len() ==> r == Err::<(u128, u128), OracleError>(
                OracleError::NoSuchRequest,
            ) && *final(self) == *old(self),
            id < old(self).data_requests@.len() ==> ({
                let before = old(self).data_requests@[id as int];
                let after = final(self).data_requests@[id as int];
                &&& final(self).others_unchanged(old(self), id)
                &&& match before.stake_check(outcome@, amount, now) {
                    Err(e) => r == Err::<(u128, u128), OracleError>(e) && after == before,
                    Ok(taken) => r == Ok::<(u128, u128), OracleError>(
                        (taken as u128, (amount - taken) as u128),
                    ) && after.staked_from(&before, sender@, outcome@, taken, now),
                }
            }),
    {
        if id as usize >= self.data_requests.len() || id > usize::MAX as u64 {
            return Err(OracleError::NoSuchRequest);
        }
        let i = id as usize;
        let mut dr = self.data_requests.remove(i);
        let r = dr.stake(sender, outcome, amount, now);
        self.data_requests.insert(i, dr);
        proof {
            assert forall|j: int| 0 <= j < self.data_requests@.len() && j != i implies
                self.data_requests@[j] == old(self).data_requests@[j] by {}
        }
        r
    }

    /// Finalizes request `id` at `now`; see `DataRequest::finalize`.
    pub fn dr_finalize(&mut self, id: u64, now: Timestamp) -> (r: Result<u128, OracleError>)
        requires
            old(self).wf(),
        ensures
            final(self).wf(),
            id >= old(self).data_requests@.len() ==> r == Err::<u128, OracleError>(
                OracleError::NoSuchRequest,
            ) && *final(self) == *old(self),
            id < old(self).data_requests@.len() ==> ({
                let before = old(self).data_requests@[id as int];
                let after = final(self).data_requests@[id as int];
                &&& final(self).others_unchanged(old(self), id)
                &&& match before.finalize_check(now) {
                    Err(e) => r == Err::<u128, OracleError>(e) && after == before,
                    Ok(o) => r == Ok::<u128, OracleError>(before.requester_refund() as u128)
                        && after.finalized() == Some(o)
                        && after.resolution_windows == before.resolution_windows,
                }
            }),
    {
        if id as usize >= self.data_requests.len() || id > usize::MAX as u64 {
            return Err(OracleError::NoSuchRequest);
        }
        let i = id as usize;
        let mut dr = self.data_requests.remove(i);
        let r = dr.finalize(now);
        self.data_requests.insert(i, dr);
        proof {
            assert forall|j: int| 0 <= j < self.data_requests@.len() && j != i implies
                self.data_requests@[j] == old(self).data_requests@[j] by {}
        }
        r
    }

    /// The final arbitrator of the latest configuration finalizes request `id` on `outcome`;
    /// see `DataRequest::finalize_by_arbitration`.
    pub fn dr_final_arbitration(&mut self, id: u64, caller: &AccountId, outcome: Outcome) -> (r:
        Result<u128, OracleError>)
        requires
            old(self).wf(),
        ensures
            final(self).wf(),
            id >= old(self).data_requests@.len() ==> r == Err::<u128, OracleError>(
                OracleError::NoSuchRequest,
            ) && *final(self) == *old(self),
            id < old(self).data_requests@.len() ==> ({
                let before = old(self).data_requests@[id as int];
                let after = final(self).data_requests@[id as int];
                &&& final(self).others_unchanged(old(self), id)
                &&& match before.arbitration_check(caller@) {
                    Err(e) => r == Err::<u128, OracleError>(e) && after == before,
                    Ok(_) => r == Ok::<u128, OracleError>(before.requester_refund() as u128)
                        && after.arbitrated_from(
                        &before,
                        outcome@,
                    ),
                }
            }),
    {
        if id as usize >= self.data_requests.len() || id > usize::MAX as u64 {
            return Err(OracleError::NoSuchRequest);
        }
        let i = id as usize;
        let mut dr = self.data_requests.remove(i);
        let r = dr.finalize_by_arbitration(caller, outcome);
        self.data_requests.insert(i, dr);
        proof {
            assert forall|j: int| 0 <= j < self.data_requests@.len() && j != i implies
                self.data_requests@[j] == old(self).data_requests@[j] by {}
        }
        r
    }

    /// Settles `account_id`'s stake on request `id`; see `DataRequest::claim`.
    pub fn dr_claim(&mut self, id: u64, account_id: &AccountId) -> (r: Result<Payout, OracleError>)
        requires
            old(self).wf(),
        ensures
            final(self).wf(),
            id >= old(self).data_requests@.len() ==> r == Err::<Payout, OracleError>(
                OracleError::NoSuchRequest,
            ) && *final(self) == *old(self),
            id < old(self).data_requests@.len() ==> ({
                let before = old(self).data_requests@[id as int];
                let after = final(self).data_requests@[id as int];
                &&& final(self).others_unchanged(old(self), id)
                &&& match before.claim_check(account_id@) {
                    Err(e) => r == Err::<Payout, OracleError>(e) && after == before,
                    Ok(amount) => r is Ok && r->Ok_0.amount == amount && after.claimed_from(
                        &before,
                        account_id@,
                    ),
                }
            }),
    {
        if id as usize >= self.data_requests.len() || id > usize::MAX as u64 {
            return Err(OracleError::NoSuchRequest);
        }
        let i = id as usize;
        let mut dr = self.data_requests.remove(i);
        let r = dr.claim(account_id);
        self.data_requests.insert(i, dr);
        proof {
            assert forall|j: int| 0 <= j < self.data_requests@.len() && j != i implies
                self.data_requests@[j] == old(self).data_requests@[j] by {}
        }
        r
    }
}

} // verus!
