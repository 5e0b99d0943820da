use staked_gov::gov::Gov;
use staked_gov::state::{calc_range_end, calc_range_start, Config, Decimal, PollStatus, VoteOption};
use staked_gov::store::OrderBy;

fn gov_with_polls(n: u64) -> Gov {
    let cfg = Config {
        owner: 0,
        gov_token: 1,
        quorum: Decimal::percent(10),
        threshold: Decimal::percent(50),
        voting_period: 50,
        timelock_period: 50,
        expiration_period: 100,
        proposal_deposit: 10,
        snapshot_period: 30,
    };
    let mut gov = Gov::new(cfg);
    let mut i: u64 = 0;
    while i < n {
        gov.create_poll(2, 10, "p".to_string(), None, 0).unwrap();
        i += 1;
    }
    gov
}

#[test]
fn list_polls_asc_continues_after_cursor() {
    let gov = gov_with_polls(8);
    let ids = gov.list_polls(None, Some(5), Some(10), Some(OrderBy::Asc));
    assert_eq!(ids, vec![6, 7, 8]);
}

#[test]
fn list_polls_pages_are_disjoint_and_contiguous() {
    let gov = gov_with_polls(6);
    let page1 = gov.list_polls(None, None, Some(2), Some(OrderBy::Asc));
    assert_eq!(page1, vec![1, 2]);
    let page2 = gov.list_polls(None, Some(2), Some(2), Some(OrderBy::Asc));
    assert_eq!(page2, vec![3, 4]);
    let page3 = gov.list_polls(None, Some(4), Some(2), Some(OrderBy::Asc));
    assert_eq!(page3, vec![5, 6]);
}

#[test]
fn list_polls_desc_is_default() {
    let gov = gov_with_polls(4);
    let ids = gov.list_polls(None, None, Some(10), None);
    assert_eq!(ids, vec![4, 3, 2, 1]);
    let before = gov.list_polls(None, Some(3), Some(10), Some(OrderBy::Desc));
    assert_eq!(before, vec![2, 1]);
}

#[test]
fn list_polls_default_limit_is_ten() {
    let gov = gov_with_polls(12);
    let ids = gov.list_polls(None, None, None, Some(OrderBy::Asc));
    assert_eq!(ids.len(), 10);
    assert_eq!(ids[0], 1);
    assert_eq!(ids[9], 10);
}

#[test]
fn list_polls_filters_by_status() {
    let mut gov = gov_with_polls(3);
    assert!(gov.stake(1, 100).is_ok());
    assert!(gov.cast_vote(1, 2, VoteOption::Yes, 50, 1).is_ok());
    assert_eq!(gov.end_poll(2, 50), Ok(PollStatus::Passed));
    assert_eq!(gov.end_poll(3, 50), Ok(PollStatus::Rejected));
    let in_progress = gov.list_polls(Some(PollStatus::InProgress), None, Some(10), Some(OrderBy::Asc));
    assert_eq!(in_progress, vec![1]);
    let passed = gov.list_polls(Some(PollStatus::Passed), None, Some(10), Some(OrderBy::Asc));
    assert_eq!(passed, vec![2]);
    let rejected = gov.list_polls(Some(PollStatus::Rejected), None, Some(10), Some(OrderBy::Asc));
    assert_eq!(rejected, vec![3]);
    let executed = gov.list_polls(Some(PollStatus::Executed), None, Some(10), Some(OrderBy::Asc));
    assert!(executed.is_empty());
}

#[test]
fn read_poll_voters_pages_by_voter() {
    let mut gov = gov_with_polls(1);
    assert!(gov.stake(1, 10).is_ok());
    assert!(gov.stake(2, 20).is_ok());
    assert!(gov.stake(3, 30).is_ok());
    assert!(gov.cast_vote(2, 1, VoteOption::No, 20, 1).is_ok());
    assert!(gov.cast_vote(1, 1, VoteOption::Yes, 10, 2).is_ok());
    assert!(gov.cast_vote(3, 1, VoteOption::Yes, 30, 3).is_ok());
    let asc = gov.read_poll_voters(1, None, Some(10), Some(OrderBy::Asc));
    let asc_ids: Vec<u64> = asc.iter().map(|e| e.0).collect();
    assert_eq!(asc_ids, vec![1, 2, 3]);
    assert_eq!(asc[0].1.vote, VoteOption::Yes);
    assert_eq!(asc[0].1.weight, 10);
    assert_eq!(asc[1].1.vote, VoteOption::No);
    let desc = gov.read_poll_voters(1, None, Some(10), None);
    let desc_ids: Vec<u64> = desc.iter().map(|e| e.0).collect();
    assert_eq!(desc_ids, vec![3, 2, 1]);
    let after = gov.read_poll_voters(1, Some(1), Some(10), Some(OrderBy::Asc));
    let after_ids: Vec<u64> = after.iter().map(|e| e.0).collect();
    assert_eq!(after_ids, vec![2, 3]);
    let empty = gov.read_poll_voters(42, None, Some(10), Some(OrderBy::Asc));
    assert!(empty.is_empty());
}

#[test]
fn calc_range_bounds_encode_big_endian() {
    assert_eq!(calc_range_start(None), None);
    assert_eq!(calc_range_end(None), None);
    // ascending scans start just past the key: its bytes plus a 0x01 byte
    assert_eq!(
        calc_range_start(Some(1)),
        Some(vec![0, 0, 0, 0, 0, 0, 0, 1, 1])
    );
    // descending scans end exactly at the key's own bytes
    assert_eq!(calc_range_end(Some(256)), Some(vec![0, 0, 0, 0, 0, 0, 1, 0]));
    assert_eq!(
        calc_range_start(Some(0x0102_0304_0506_0708)),
        Some(vec![1, 2, 3, 4, 5, 6, 7, 8, 1])
    );
}
