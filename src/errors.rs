use vstd::prelude::*;

verus! {

/// Why an operation on a data request was refused. A refused operation changes nothing.
#[derive(Clone, Copy, Debug, PartialEq, Eq, Structural)]
pub enum OracleError {
    /// The round is closed, or not open yet.
    InvalidRound,
    /// Another outcome already reached this round's bond.
    OutcomeAlreadyBonded,
    /// Stake cannot leave a round once the round is bonded.
    RoundAlreadyBonded,
    /// The staker has less stake on that outcome than asked for.
    InsufficientStake,
    /// The request is still before its settlement time.
    NotOpen,
    /// A round may only challenge with an outcome other than the one it disputes.
    NoChallengePossible,
    /// The request is already finalized.
    AlreadyFinalized,
    /// The request is not finalized yet.
    NotFinalized,
    /// The last round's challenge window has not closed.
    ChallengeWindowOpen,
    /// No round has been bonded, so there is nothing to finalize.
    NothingBonded,
    /// This staker has already claimed for this request.
    AlreadyClaimed,
    /// The caller lacks the privilege for this operation.
    Unauthorized,
    /// A bond, a window or an amount no longer fits its integer type.
    ArithmeticOverflow,
    /// The attached deposit does not pay for the storage a call used.
    InsufficientDeposit,
    /// No data request has this id.
    NoSuchRequest,
    /// The request parameters are out of policy.
    InvalidRequest,
    /// An awaited call to another contract failed.
    UpstreamFailure,
}

} // verus!
