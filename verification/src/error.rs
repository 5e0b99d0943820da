//! Typed failures returned by the governance engine.  Every mutating
//! operation validates all preconditions before any write, so an error
//! always leaves the state untouched.

use vstd::prelude::*;

verus! {

#[derive(Clone, Copy, PartialEq, Eq, Structural, Debug)]
pub enum ContractError {
    /// The caller is not allowed to perform the operation.
    Unauthorized,
    /// No poll exists under the given identifier.
    PollNotFound,
    /// The poll is not accepting this operation in its current status.
    PollNotInProgress,
    /// The poll's voting period has ended; votes are no longer accepted.
    PollExpiredByHeight,
    /// The poll's voting period has not ended; it cannot be tallied yet.
    PollVotingPeriodNotEnded,
    /// The poll has not passed, so it cannot be executed or expired.
    PollNotPassed,
    /// The poll's maximum age has not been exceeded yet.
    PollNotExpired,
    /// The poll is still in progress or within its timelock, so locked
    /// weight cannot be released.
    PollNotResolved,
    /// The timelock window after passing has not elapsed.
    TimelockNotElapsed,
    /// The sent deposit is below the configured proposal deposit.
    InsufficientDeposit,
    /// The requested vote weight exceeds the staker's unlocked share.
    InsufficientStakedWeight,
    /// The requested withdrawal would dip into weight locked in polls.
    StakeLockedInActivePoll,
    /// A zero amount was offered where a positive one is required.
    InsufficientFunds,
    /// The staker has no record in the share ledger.
    NothingStaked,
}

} // verus!
