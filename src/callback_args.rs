use vstd::prelude::*;

use crate::types::{AccountId, Outcome, Timestamp};

verus! {

/// Where the answer to a request can be looked up.
pub struct Source {
    pub end_point: String,
    pub source_path: String,
}

/// What a requester hands in to create a data request.
pub struct NewDataRequestArgs {
    pub sources: Vec<Source>,
    /// The answers to choose from; `None` leaves the answer open.
    pub outcomes: Option<Vec<String>>,
    /// From this time on stake is taken. It may lie in the past.
    pub settlement_time: Timestamp,
    pub challenge_period: Timestamp,
    pub target_contract: AccountId,
}

/// Stake on an outcome of request `id`.
pub struct StakeDataRequestArgs {
    pub id: u64,
    pub outcome: Outcome,
}

/// A challenge of request `id` with another answer.
pub struct ChallengeDataRequestArgs {
    pub id: u64,
    pub answer: Outcome,
}

} // verus!
