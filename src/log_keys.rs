use vstd::prelude::*;

use crate::types::{decimal, outcome_key, outcome_to_id, push_decimal, AccountId, Outcome};

verus! {

/// The key of data request `id` in the event log: `dr_<id>`.
pub fn data_request_key(id: u64) -> (r: String)
    ensures
        r@ == seq!['d', 'r', '_'] + decimal(id as nat),
{
    proof {
        reveal_strlit("dr_");
    }
    let mut key = String::from_str("dr_");
    push_decimal(&mut key, id as u128);
    key
}

/// The key of round `round` of request `dr_id`: `rw_<dr_id>_<round>`.
pub fn resolution_window_key(dr_id: u64, round: u16) -> (r: String)
    ensures
        r@ == seq!['r', 'w', '_'] + decimal(dr_id as nat) + seq!['_'] + decimal(round as nat),
{
    proof {
        reveal_strlit("rw_");
        reveal_strlit("_");
    }
    let mut key = String::from_str("rw_");
    push_decimal(&mut key, dr_id as u128);
    key.append("_");
    push_decimal(&mut key, round as u128);
    key
}

/// The key of the total on `outcome` in a round: `ots_<dr_id>_<round>_<outcome key>`.
pub fn outcome_stake_key(dr_id: u64, round: u16, outcome: &Outcome) -> (r: String)
    ensures
        r@ == seq!['o', 't', 's', '_'] + decimal(dr_id as nat) + seq!['_'] + decimal(round as nat)
            + seq!['_'] + outcome_key(outcome@),
{
    proof {
        reveal_strlit("ots_");
        reveal_strlit("_");
    }
    let mut key = String::from_str("ots_");
    push_decimal(&mut key, dr_id as u128);
    key.append("_");
    push_decimal(&mut key, round as u128);
    key.append("_");
    let id = outcome_to_id(outcome);
    key.append(id.as_str());
    key
}

/// The key of what `account_id` has on `outcome` in a round:
/// `us_<dr_id>_<round>_<outcome key>_<account>`.
pub fn user_stake_key(dr_id: u64, round: u16, outcome: &Outcome, account_id: &AccountId) -> (r:
    String)
    ensures
        r@ == seq!['u', 's', '_'] + decimal(dr_id as nat) + seq!['_'] + decimal(round as nat)
            + seq!['_'] + outcome_key(outcome@) + seq!['_'] + account_id@,
{
    proof {
        reveal_strlit("us_");
        reveal_strlit("_");
    }
    let mut key = String::from_str("us_");
    push_decimal(&mut key, dr_id as u128);
    key.append("_");
    push_decimal(&mut key, round as u128);
    key.append("_");
    let id = outcome_to_id(outcome);
    key.append(id.as_str());
    key.append("_");
    key.append(account_id.as_str());
    key
}

/// The key of the claim of `account_id` on request `dr_id`: `c_<account>_<dr_id>`.
pub fn claim_key(account_id: &AccountId, dr_id: u64) -> (r: String)
    ensures
        r@ == seq!['c', '_'] + account_id@ + seq!['_'] + decimal(dr_id as nat),
{
    proof {
        reveal_strlit("c_");
        reveal_strlit("_");
    }
    let mut key = String::from_str("c_");
    key.append(account_id.as_str());
    key.append("_");
    push_decimal(&mut key, dr_id as u128);
    key
}

} // verus!
