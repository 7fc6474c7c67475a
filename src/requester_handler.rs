use vstd::prelude::*;

use crate::fee_config::CustomFeeStakeArgs;
use crate::types::{AccountId, Outcome};

verus! {

/// What a requester contract offers the oracle: it is told the outcome of its requests.
pub trait RequesterContractExtern {
    fn set_outcome(
        requester: AccountId,
        outcome: Outcome,
        tags: Vec<String>,
        final_arbitrator_triggered: bool,
    );
}

/// What the oracle tells a requester contract once one of its requests is finalized.
pub struct SetOutcomeArgs {
    pub requester: AccountId,
    pub outcome: Outcome,
    pub tags: Vec<String>,
    pub final_arbitrator_triggered: bool,
}

/// A contract that asks the oracle questions.
pub struct Requester {
    pub contract_name: String,
    pub account_id: AccountId,
    pub stake_multiplier: Option<u16>,
    pub code_base_url: Option<String>,
}

impl Requester {
    /// A requester known by its account alone: no name, no multiplier, no code url.
    pub fn new_no_whitelist(account_id: &AccountId) -> (r: Self)
        ensures
            r.contract_name@ == Seq::<char>::empty(),
            r.account_id@ == account_id@,
            r.stake_multiplier is None,
            r.code_base_url is None,
    {
        Requester {
            contract_name: String::new(),
            account_id: account_id.clone(),
            stake_multiplier: None,
            code_base_url: None,
        }
    }

    /// The notice that tells this requester `outcome`, for the request tagged `tags`; it goes
    /// to the requester's own account.
    pub fn set_outcome(&self, outcome: Outcome, tags: Vec<String>, final_arbitrator_triggered: bool) -> (r:
        SetOutcomeArgs)
        ensures
            r.requester@ == self.account_id@,
            r.outcome == outcome,
            r.tags == tags,
            r.final_arbitrator_triggered == final_arbitrator_triggered,
    {
        SetOutcomeArgs {
            requester: self.account_id.clone(),
            outcome,
            tags,
            final_arbitrator_triggered,
        }
    }

    /// How this requester's stake cost departs from the base bond.
    pub fn custom_fee(&self) -> (r: CustomFeeStakeArgs)
        ensures
            r == match self.stake_multiplier {
                Some(m) => CustomFeeStakeArgs::Multiplier(m),
                None => CustomFeeStakeArgs::Base,
            },
    {
        match self.stake_multiplier {
            Some(m) => CustomFeeStakeArgs::Multiplier(m),
            None => CustomFeeStakeArgs::Base,
        }
    }
}

} // verus!
