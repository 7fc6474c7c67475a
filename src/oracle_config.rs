use vstd::prelude::*;

use crate::fee_config::FeeConfig;
use crate::types::AccountId;

verus! {

/// The settings of the oracle at one moment. Each change adds a new one.
pub struct OracleConfig {
    pub gov: AccountId,
    pub final_arbitrator: AccountId,
    pub bond_token: AccountId,
    pub stake_token: AccountId,
    pub validity_bond: u128,
    pub max_outcomes: u8,
    pub default_challenge_window_duration: u64,
    pub min_initial_challenge_window_duration: u64,
    pub final_arbitrator_invoke_amount: u128,
    pub fee: FeeConfig,
}

} // verus!
