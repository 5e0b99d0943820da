use staked_gov::error::ContractError;
use staked_gov::gov::Gov;
use staked_gov::state::{Config, Decimal, PollStatus, VoteOption};

fn test_config() -> Config {
    Config {
        owner: 0,
        gov_token: 1,
        quorum: Decimal::percent(10),
        threshold: Decimal::percent(50),
        voting_period: 50,
        timelock_period: 50,
        expiration_period: 100,
        proposal_deposit: 10,
        snapshot_period: 30,
    }
}

fn new_gov() -> Gov {
    Gov::new(test_config())
}

#[test]
fn total_share_tracks_stakes() {
    let mut gov = new_gov();
    assert!(gov.stake(7, 40).is_ok());
    assert!(gov.stake(8, 60).is_ok());
    assert_eq!(gov.query_state().total_share, 100);
    assert!(gov.withdraw_share(7, 15).is_ok());
    assert_eq!(gov.query_state().total_share, 85);
    assert_eq!(gov.query_staker(7).unwrap().share, 25);
    assert_eq!(gov.query_staker(8).unwrap().share, 60);
}

#[test]
fn stake_zero_rejected() {
    let mut gov = new_gov();
    assert_eq!(gov.stake(7, 0), Err(ContractError::InsufficientFunds));
    assert!(gov.query_staker(7).is_none());
}

#[test]
fn withdraw_unknown_staker_fails() {
    let mut gov = new_gov();
    assert_eq!(gov.withdraw_share(9, 1), Err(ContractError::NothingStaked));
}

#[test]
fn locked_never_exceeds_share() {
    let mut gov = new_gov();
    assert!(gov.stake(7, 50).is_ok());
    let id = gov.create_poll(2, 10, "p".to_string(), None, 0).unwrap();
    assert!(gov.cast_vote(7, id, VoteOption::Yes, 30, 1).is_ok());
    let tm = gov.query_staker(7).unwrap();
    assert!(tm.locked_total() <= tm.share);
    assert_eq!(tm.locked_total(), 30);
}

#[test]
fn unlock_idempotent_for_resolved_poll() {
    let mut gov = new_gov();
    assert!(gov.stake(7, 50).is_ok());
    let id = gov.create_poll(2, 10, "p".to_string(), None, 0).unwrap();
    assert!(gov.cast_vote(7, id, VoteOption::Yes, 30, 1).is_ok());
    // shrink the vote so turnout misses the quorum and the poll is rejected
    assert!(gov.cast_vote(7, id, VoteOption::No, 2, 2).is_ok());
    assert_eq!(gov.end_poll(id, 50), Ok(PollStatus::Rejected));
    // weight still locked after tally; an explicit unlock releases it
    assert_eq!(gov.query_staker(7).unwrap().locked_total(), 2);
    assert!(gov.unlock(7, id).is_ok());
    assert_eq!(gov.query_staker(7).unwrap().locked_total(), 0);
    // a second unlock succeeds and changes nothing
    assert!(gov.unlock(7, id).is_ok());
    assert_eq!(gov.query_staker(7).unwrap().locked_total(), 0);
    assert_eq!(gov.query_staker(7).unwrap().share, 50);
}

#[test]
fn unlock_refused_while_poll_active() {
    let mut gov = new_gov();
    assert!(gov.stake(7, 50).is_ok());
    let id = gov.create_poll(2, 10, "p".to_string(), None, 0).unwrap();
    assert!(gov.cast_vote(7, id, VoteOption::Yes, 30, 1).is_ok());
    assert_eq!(gov.unlock(7, id), Err(ContractError::PollNotResolved));
}

#[test]
fn zero_votes_always_rejected() {
    let mut gov = new_gov();
    assert!(gov.stake(7, 100).is_ok());
    let id = gov.create_poll(2, 10, "p".to_string(), None, 0).unwrap();
    assert_eq!(gov.end_poll(id, 50), Ok(PollStatus::Rejected));
}

#[test]
fn zero_votes_rejected_even_with_zero_quorum() {
    let mut cfg = test_config();
    cfg.quorum = Decimal::zero();
    let mut gov = Gov::new(cfg);
    let id = gov.create_poll(2, 10, "p".to_string(), None, 0).unwrap();
    // zero staked, zero votes: still a clean rejection, no division error
    assert_eq!(gov.end_poll(id, 50), Ok(PollStatus::Rejected));
}

#[test]
fn revote_replaces_prior_vote() {
    let mut gov = new_gov();
    assert!(gov.stake(7, 10).is_ok());
    assert!(gov.stake(8, 90).is_ok());
    let id = gov.create_poll(2, 10, "p".to_string(), None, 0).unwrap();
    assert!(gov.cast_vote(7, id, VoteOption::Yes, 10, 1).is_ok());
    // same weight flips side: possible only because the prior lock is replaced
    assert!(gov.cast_vote(7, id, VoteOption::No, 10, 2).is_ok());
    let p = gov.query_poll(id).unwrap();
    assert_eq!(p.yes_votes, 0);
    assert_eq!(p.no_votes, 10);
    assert_eq!(gov.query_staker(7).unwrap().locked_total(), 10);
}

#[test]
fn quorum_and_threshold_pass() {
    // quorum 10%, threshold 50%, total staked 100, yes=6 no=5:
    // turnout 11 >= 10 and 6/11 >= 0.5, so the poll passes
    let mut gov = new_gov();
    assert!(gov.stake(1, 6).is_ok());
    assert!(gov.stake(2, 5).is_ok());
    assert!(gov.stake(3, 89).is_ok());
    let id = gov.create_poll(2, 10, "p".to_string(), None, 0).unwrap();
    assert!(gov.cast_vote(1, id, VoteOption::Yes, 6, 1).is_ok());
    assert!(gov.cast_vote(2, id, VoteOption::No, 5, 2).is_ok());
    assert_eq!(gov.end_poll(id, 50), Ok(PollStatus::Passed));
    let p = gov.query_poll(id).unwrap();
    assert_eq!(p.status, PollStatus::Passed);
    assert_eq!(p.timelock_end, 100);
}

#[test]
fn below_quorum_rejected_despite_majority() {
    // same config, yes=4 no=3: turnout 7 < 10% of 100, rejected
    let mut gov = new_gov();
    assert!(gov.stake(1, 4).is_ok());
    assert!(gov.stake(2, 3).is_ok());
    assert!(gov.stake(3, 93).is_ok());
    let id = gov.create_poll(2, 10, "p".to_string(), None, 0).unwrap();
    assert!(gov.cast_vote(1, id, VoteOption::Yes, 4, 1).is_ok());
    assert!(gov.cast_vote(2, id, VoteOption::No, 3, 2).is_ok());
    assert_eq!(gov.end_poll(id, 50), Ok(PollStatus::Rejected));
}

#[test]
fn execute_before_timelock_fails_and_leaves_state() {
    let mut gov = new_gov();
    assert!(gov.stake(1, 6).is_ok());
    assert!(gov.stake(2, 5).is_ok());
    assert!(gov.stake(3, 89).is_ok());
    let id = gov.create_poll(2, 10, "p".to_string(), None, 0).unwrap();
    assert!(gov.cast_vote(1, id, VoteOption::Yes, 6, 1).is_ok());
    assert!(gov.cast_vote(2, id, VoteOption::No, 5, 2).is_ok());
    assert_eq!(gov.end_poll(id, 50), Ok(PollStatus::Passed));
    // timelock_end is 100; calling at 99 fails and changes nothing
    assert_eq!(gov.execute_poll(id, 99), Err(ContractError::TimelockNotElapsed));
    assert_eq!(gov.query_poll(id).unwrap().status, PollStatus::Passed);
    assert_eq!(gov.query_staker(1).unwrap().locked_total(), 6);
    // at 100 it executes and releases the voters' weight
    assert!(gov.execute_poll(id, 100).is_ok());
    assert_eq!(gov.query_poll(id).unwrap().status, PollStatus::Executed);
    assert_eq!(gov.query_staker(1).unwrap().locked_total(), 0);
    assert_eq!(gov.query_staker(2).unwrap().locked_total(), 0);
    assert!(gov.withdraw_share(1, 6).is_ok());
}

#[test]
fn withdraw_respects_locked_weight() {
    let mut gov = new_gov();
    assert!(gov.stake(7, 50).is_ok());
    let id = gov.create_poll(2, 10, "p".to_string(), None, 0).unwrap();
    assert!(gov.cast_vote(7, id, VoteOption::Yes, 30, 1).is_ok());
    // 30 of 50 locked: withdrawing 25 dips into the lock, 20 does not
    assert_eq!(gov.withdraw_share(7, 25), Err(ContractError::StakeLockedInActivePoll));
    assert!(gov.withdraw_share(7, 20).is_ok());
    assert_eq!(gov.query_staker(7).unwrap().share, 30);
}

#[test]
fn create_poll_requires_deposit() {
    let mut gov = new_gov();
    assert_eq!(
        gov.create_poll(2, 9, "p".to_string(), None, 0),
        Err(ContractError::InsufficientDeposit)
    );
    assert_eq!(gov.query_state().poll_count, 0);
    let id = gov.create_poll(2, 10, "p".to_string(), None, 0).unwrap();
    assert_eq!(id, 1);
    assert_eq!(gov.query_state().total_deposit, 10);
}

#[test]
fn deposit_settles_on_tally() {
    let mut gov = new_gov();
    assert!(gov.stake(1, 100).is_ok());
    let id = gov.create_poll(2, 10, "p".to_string(), None, 0).unwrap();
    assert_eq!(gov.query_state().total_deposit, 10);
    assert_eq!(gov.end_poll(id, 50), Ok(PollStatus::Rejected));
    assert_eq!(gov.query_state().total_deposit, 0);
}

#[test]
fn vote_errors_in_order() {
    let mut gov = new_gov();
    assert!(gov.stake(7, 50).is_ok());
    assert_eq!(
        gov.cast_vote(7, 99, VoteOption::Yes, 1, 1),
        Err(ContractError::PollNotFound)
    );
    let id = gov.create_poll(2, 10, "p".to_string(), None, 0).unwrap();
    // past the end height: expired for voting
    assert_eq!(
        gov.cast_vote(7, id, VoteOption::Yes, 1, 51),
        Err(ContractError::PollExpiredByHeight)
    );
    // more weight than unlocked share
    assert_eq!(
        gov.cast_vote(7, id, VoteOption::Yes, 51, 1),
        Err(ContractError::InsufficientStakedWeight)
    );
    // a non-staker cannot vote
    assert_eq!(
        gov.cast_vote(8, id, VoteOption::Yes, 0, 1),
        Err(ContractError::InsufficientStakedWeight)
    );
    assert_eq!(gov.end_poll(id, 50), Ok(PollStatus::Rejected));
    // resolved polls accept no votes
    assert_eq!(
        gov.cast_vote(7, id, VoteOption::Yes, 1, 50),
        Err(ContractError::PollNotInProgress)
    );
}

#[test]
fn end_poll_errors() {
    let mut gov = new_gov();
    assert_eq!(gov.end_poll(1, 50), Err(ContractError::PollNotFound));
    let id = gov.create_poll(2, 10, "p".to_string(), None, 0).unwrap();
    assert_eq!(gov.end_poll(id, 49), Err(ContractError::PollVotingPeriodNotEnded));
    assert_eq!(gov.end_poll(id, 50), Ok(PollStatus::Rejected));
    assert_eq!(gov.end_poll(id, 50), Err(ContractError::PollNotInProgress));
}

#[test]
fn execute_errors() {
    let mut gov = new_gov();
    assert_eq!(gov.execute_poll(1, 0), Err(ContractError::PollNotFound));
    let id = gov.create_poll(2, 10, "p".to_string(), None, 0).unwrap();
    assert_eq!(gov.execute_poll(id, 200), Err(ContractError::PollNotPassed));
}

#[test]
fn expire_releases_locks() {
    let mut gov = new_gov();
    assert!(gov.stake(1, 6).is_ok());
    assert!(gov.stake(2, 5).is_ok());
    assert!(gov.stake(3, 89).is_ok());
    let id = gov.create_poll(2, 10, "p".to_string(), None, 0).unwrap();
    assert!(gov.cast_vote(1, id, VoteOption::Yes, 6, 1).is_ok());
    assert!(gov.cast_vote(2, id, VoteOption::No, 5, 2).is_ok());
    assert_eq!(gov.end_poll(id, 50), Ok(PollStatus::Passed));
    // maximum age is end_height + expiration_period = 50 + 100
    assert_eq!(gov.expire_poll(id, 150), Err(ContractError::PollNotExpired));
    assert!(gov.expire_poll(id, 151).is_ok());
    assert_eq!(gov.query_poll(id).unwrap().status, PollStatus::Expired);
    assert_eq!(gov.query_staker(1).unwrap().locked_total(), 0);
    assert!(gov.withdraw_share(2, 5).is_ok());
}

#[test]
fn snapshot_fixes_quorum_denominator() {
    let mut gov = new_gov();
    assert!(gov.stake(1, 11).is_ok());
    assert!(gov.stake(2, 89).is_ok());
    let id = gov.create_poll(2, 10, "p".to_string(), None, 0).unwrap();
    // at height 30 the snapshot window opened: this vote captures total=100
    assert!(gov.cast_vote(1, id, VoteOption::Yes, 11, 30).is_ok());
    let p = gov.query_poll(id).unwrap();
    let snap = p.snapshot.unwrap();
    assert_eq!(snap.height, 30);
    assert_eq!(snap.total_share, 100);
    // late stake does not dilute the quorum: denominator stays 100
    assert!(gov.stake(3, 900).is_ok());
    assert_eq!(gov.end_poll(id, 50), Ok(PollStatus::Passed));
}

#[test]
fn vote_before_snapshot_window_takes_none() {
    let mut gov = new_gov();
    assert!(gov.stake(1, 100).is_ok());
    let id = gov.create_poll(2, 10, "p".to_string(), None, 0).unwrap();
    assert!(gov.cast_vote(1, id, VoteOption::Yes, 20, 29).is_ok());
    assert!(gov.query_poll(id).unwrap().snapshot.is_none());
}

#[test]
fn percent_formula_exact() {
    assert_eq!(Decimal::percent(10).atomics, 100_000_000);
    assert_eq!(Decimal::percent(50).atomics, 500_000_000);
    assert_eq!(Decimal::percent(100).atomics, 1_000_000_000);
    assert_eq!(Decimal::zero().atomics, 0);
}

#[test]
fn update_config_owner_only() {
    let mut gov = new_gov();
    assert_eq!(
        gov.update_config(5, Some(Decimal::percent(20)), None),
        Err(ContractError::Unauthorized)
    );
    assert_eq!(gov.query_config().quorum, Decimal::percent(10));
    assert!(gov.update_config(0, Some(Decimal::percent(20)), Some(Decimal::percent(60))).is_ok());
    assert_eq!(gov.query_config().quorum, Decimal::percent(20));
    assert_eq!(gov.query_config().threshold, Decimal::percent(60));
}
