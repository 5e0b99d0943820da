//! The governance data model: configuration, aggregate counters,
//! per-staker share and lock records, and poll records.

use crate::store::KeyedStore;
use vstd::prelude::*;

verus! {

/// Scale of a fixed-point ratio: `atomics / DECIMAL_FRACTIONAL`.
pub const DECIMAL_FRACTIONAL: u64 = 1_000_000_000;

/// A fixed-point decimal ratio with nine fractional digits, used for the
/// quorum and pass-threshold parameters.
#[derive(Clone, Copy, PartialEq, Eq, Structural, Debug)]
pub struct Decimal {
    pub atomics: u64,
}

impl Decimal {
    /// The ratio is at most one.
    pub open spec fn at_most_one(&self) -> bool {
        self.atomics <= DECIMAL_FRACTIONAL
    }

    pub fn zero() -> (r: Decimal)
        ensures
            r.atomics == 0,
            r.at_most_one(),
    {
        Decimal { atomics: 0 }
    }

    /// The ratio `x / 100`.
    pub fn percent(x: u64) -> (r: Decimal)
        requires
            x <= 100,
        ensures
            r.atomics == x * 10_000_000,
            r.at_most_one(),
    {
        Decimal { atomics: x * 10_000_000 }
    }
}

/// Whether `num / den >= d`, stated without division so that a zero
/// denominator never needs a special case.
pub open spec fn ratio_ge(num: int, den: int, d: Decimal) -> bool {
    num * DECIMAL_FRACTIONAL >= d.atomics * den
}

/// Evaluate `ratio_ge` exactly, in wide integer arithmetic.  The inputs
/// may be sums of two shares, hence one bit wider than `u64`; the ratio
/// must be at most one, as the quorum and threshold parameters are.
pub fn check_ratio_ge(num: u128, den: u128, d: Decimal) -> (r: bool)
    requires
        num <= 2 * (u64::MAX as int),
        den <= 2 * (u64::MAX as int),
        d.at_most_one(),
    ensures
        r == ratio_ge(num as int, den as int, d),
{
    proof {
        vstd::arithmetic::mul::lemma_mul_upper_bound(
            num as int,
            2 * (u64::MAX as int),
            DECIMAL_FRACTIONAL as int,
            DECIMAL_FRACTIONAL as int,
        );
        vstd::arithmetic::mul::lemma_mul_upper_bound(
            d.atomics as int,
            DECIMAL_FRACTIONAL as int,
            den as int,
            2 * (u64::MAX as int),
        );
        assert((2 * (u64::MAX as int)) * (DECIMAL_FRACTIONAL as int) <= u128::MAX as int)
            by (nonlinear_arith);
    }
    num * (DECIMAL_FRACTIONAL as u128) >= (d.atomics as u128) * den
}

/// Lifecycle state of a poll.  `Rejected`, `Executed` and `Expired` are
/// terminal.
#[derive(Clone, Copy, PartialEq, Eq, Structural, Debug)]
pub enum PollStatus {
    InProgress,
    Passed,
    Rejected,
    Executed,
    Expired,
}

/// Direction of a cast vote.
#[derive(Clone, Copy, PartialEq, Eq, Structural, Debug)]
pub enum VoteOption {
    Yes,
    No,
}

/// A cast vote: its direction and the weight committed to it.
#[derive(Clone, Copy, PartialEq, Eq, Structural, Debug)]
pub struct VoteInfo {
    pub vote: VoteOption,
    pub weight: u64,
}

/// A one-time capture of the aggregate staked share, used as the quorum
/// denominator to resist last-moment stake manipulation.
#[derive(Clone, Copy, PartialEq, Eq, Structural, Debug)]
pub struct Snapshot {
    pub height: u64,
    pub total_share: u64,
}

/// Global parameters, immutable after initialization.
#[derive(Clone, Copy, PartialEq, Eq, Structural, Debug)]
pub struct Config {
    pub owner: u64,
    pub gov_token: u64,
    pub quorum: Decimal,
    pub threshold: Decimal,
    pub voting_period: u64,
    pub timelock_period: u64,
    pub expiration_period: u64,
    pub proposal_deposit: u64,
    pub snapshot_period: u64,
}

impl Config {
    /// Quorum and threshold are ratios between zero and one.
    pub open spec fn wf(&self) -> bool {
        self.quorum.at_most_one() && self.threshold.at_most_one()
    }
}

/// Aggregate counters, mutated by every state-changing operation.
#[derive(Clone, Copy, PartialEq, Eq, Structural, Debug)]
pub struct State {
    pub total_share: u64,
    pub total_deposit: u64,
    pub poll_count: u64,
}

/// The weight a vote contributes to direction `d`.
pub open spec fn dir_weight(v: VoteInfo, d: VoteOption) -> int {
    if v.vote == d {
        v.weight as int
    } else {
        0
    }
}

/// Total locked weight over a lock-record sequence.
pub open spec fn sum_weights(s: Seq<(u64, VoteInfo)>) -> int
    decreases s.len(),
{
    if s.len() == 0 {
        0
    } else {
        sum_weights(s.drop_last()) + s.last().1.weight
    }
}

/// Total weight committed to direction `d` over a vote-record sequence.
pub open spec fn sum_dir(s: Seq<(u64, VoteInfo)>, d: VoteOption) -> int
    decreases s.len(),
{
    if s.len() == 0 {
        0
    } else {
        sum_dir(s.drop_last(), d) + dir_weight(s.last().1, d)
    }
}

pub proof fn lemma_sum_weights_nonneg(s: Seq<(u64, VoteInfo)>)
    ensures
        sum_weights(s) >= 0,
    decreases s.len(),
{
    if s.len() > 0 {
        lemma_sum_weights_nonneg(s.drop_last());
    }
}

pub proof fn lemma_sum_dir_nonneg(s: Seq<(u64, VoteInfo)>, d: VoteOption)
    ensures
        sum_dir(s, d) >= 0,
    decreases s.len(),
{
    if s.len() > 0 {
        lemma_sum_dir_nonneg(s.drop_last(), d);
    }
}

pub proof fn lemma_sum_weights_update(s: Seq<(u64, VoteInfo)>, i: int, e: (u64, VoteInfo))
    requires
        0 <= i < s.len(),
    ensures
        sum_weights(s.update(i, e)) == sum_weights(s) - s[i].1.weight + e.1.weight,
    decreases s.len(),
{
    let t = s.update(i, e);
    if i == s.len() - 1 {
        assert(t.drop_last() =~= s.drop_last());
        assert(t.last() == e);
    } else {
        assert(t.drop_last() =~= s.drop_last().update(i, e));
        lemma_sum_weights_update(s.drop_last(), i, e);
        assert(t.last() == s.last());
    }
}

pub proof fn lemma_sum_dir_update(s: Seq<(u64, VoteInfo)>, i: int, e: (u64, VoteInfo), d: VoteOption)
    requires
        0 <= i < s.len(),
    ensures
        sum_dir(s.update(i, e), d) == sum_dir(s, d) - dir_weight(s[i].1, d) + dir_weight(e.1, d),
    decreases s.len(),
{
    let t = s.update(i, e);
    if i == s.len() - 1 {
        assert(t.drop_last() =~= s.drop_last());
        assert(t.last() == e);
    } else {
        assert(t.drop_last() =~= s.drop_last().update(i, e));
        lemma_sum_dir_update(s.drop_last(), i, e, d);
        assert(t.last() == s.last());
    }
}

pub proof fn lemma_sum_weights_insert(s: Seq<(u64, VoteInfo)>, p: int, e: (u64, VoteInfo))
    requires
        0 <= p <= s.len(),
    ensures
        sum_weights(s.insert(p, e)) == sum_weights(s) + e.1.weight,
    decreases s.len(),
{
    let t = s.insert(p, e);
    s.insert_ensures(p, e);
    if p == s.len() {
        assert(t.drop_last() =~= s);
        assert(t.last() == e);
    } else {
        assert(t.drop_last() =~= s.drop_last().insert(p, e));
        lemma_sum_weights_insert(s.drop_last(), p, e);
        assert(t.last() == s.last());
    }
}

pub proof fn lemma_sum_dir_insert(s: Seq<(u64, VoteInfo)>, p: int, e: (u64, VoteInfo), d: VoteOption)
    requires
        0 <= p <= s.len(),
    ensures
        sum_dir(s.insert(p, e), d) == sum_dir(s, d) + dir_weight(e.1, d),
    decreases s.len(),
{
    let t = s.insert(p, e);
    s.insert_ensures(p, e);
    if p == s.len() {
        assert(t.drop_last() =~= s);
        assert(t.last() == e);
    } else {
        assert(t.drop_last() =~= s.drop_last().insert(p, e));
        lemma_sum_dir_insert(s.drop_last(), p, e, d);
        assert(t.last() == s.last());
    }
}

pub proof fn lemma_sum_weights_remove(s: Seq<(u64, VoteInfo)>, i: int)
    requires
        0 <= i < s.len(),
    ensures
        sum_weights(s.remove(i)) == sum_weights(s) - s[i].1.weight,
    decreases s.len(),
{
    let t = s.remove(i);
    s.remove_ensures(i);
    if i == s.len() - 1 {
        assert(t =~= s.drop_last());
    } else {
        assert(t.drop_last() =~= s.drop_last().remove(i));
        lemma_sum_weights_remove(s.drop_last(), i);
        assert(t.last() == s.last());
    }
}

/// A single locked entry never exceeds the total locked weight.
pub proof fn lemma_weight_le_sum(s: Seq<(u64, VoteInfo)>, i: int)
    requires
        0 <= i < s.len(),
    ensures
        s[i].1.weight <= sum_weights(s),
    decreases s.len(),
{
    if i == s.len() - 1 {
        lemma_sum_weights_nonneg(s.drop_last());
    } else {
        lemma_weight_le_sum(s.drop_last(), i);
    }
}

/// A single vote in direction `d` never exceeds that direction's total.
pub proof fn lemma_dir_le_sum(s: Seq<(u64, VoteInfo)>, i: int, d: VoteOption)
    requires
        0 <= i < s.len(),
        s[i].1.vote == d,
    ensures
        s[i].1.weight <= sum_dir(s, d),
    decreases s.len(),
{
    if i == s.len() - 1 {
        lemma_sum_dir_nonneg(s.drop_last(), d);
    } else {
        lemma_dir_le_sum(s.drop_last(), i, d);
        assert(dir_weight(s.last().1, d) >= 0);
    }
}

/// A prefix sum never exceeds the whole sum.
pub proof fn lemma_sum_weights_prefix(s: Seq<(u64, VoteInfo)>, i: int)
    requires
        0 <= i <= s.len(),
    ensures
        sum_weights(s.subrange(0, i)) <= sum_weights(s),
    decreases s.len() - i,
{
    if i == s.len() {
        assert(s.subrange(0, i) =~= s);
    } else {
        assert(s.subrange(0, i + 1).drop_last() =~= s.subrange(0, i));
        assert(sum_weights(s.subrange(0, i)) <= sum_weights(s.subrange(0, i + 1)));
        lemma_sum_weights_prefix(s, i + 1);
    }
}

/// Per-staker record: staked share and the weight locked per poll.
pub struct TokenManager {
    pub share: u64,
    pub locked_balance: KeyedStore<VoteInfo>,
}

impl TokenManager {
    /// Lock records are sorted by poll id and their total weight never
    /// exceeds the staker's share.
    pub open spec fn wf(&self) -> bool {
        &&& self.locked_balance.wf()
        &&& sum_weights(self.locked_balance@) <= self.share
    }

    /// The weight this staker has locked in poll `poll_id`, zero if none.
    pub open spec fn locked_weight_for(&self, poll_id: u64) -> int {
        match self.locked_balance.spec_get(poll_id) {
            Some(v) => v.weight as int,
            None => 0,
        }
    }

    pub fn new() -> (r: TokenManager)
        ensures
            r.wf(),
            r.share == 0,
            r.locked_balance@.len() == 0,
            forall|p: u64| r.locked_balance.spec_get(p) is None,
    {
        TokenManager { share: 0, locked_balance: KeyedStore::new() }
    }

    /// Total weight currently locked across in-progress polls.
    pub fn locked_total(&self) -> (r: u64)
        requires
            self.wf(),
        ensures
            r == sum_weights(self.locked_balance@),
    {
        let n = self.locked_balance.len();
        let mut acc: u64 = 0;
        let mut i: usize = 0;
        proof {
            lemma_sum_weights_nonneg(self.locked_balance@);
            assert(self.locked_balance@.subrange(0, 0) =~= Seq::<(u64, VoteInfo)>::empty());
        }
        while i < n
            invariant
                self.wf(),
                i <= n == self.locked_balance@.len(),
                acc == sum_weights(self.locked_balance@.subrange(0, i as int)),
                acc <= self.share,
            decreases n - i,
        {
            let (_, v) = self.locked_balance.entry_at(i);
            proof {
                let s = self.locked_balance@;
                assert(s.subrange(0, i + 1).drop_last() =~= s.subrange(0, i as int));
                assert(s.subrange(0, i + 1).last() == s[i as int]);
                lemma_sum_weights_prefix(s, i + 1);
            }
            acc = acc + v.weight;
            i += 1;
        }
        proof {
            assert(self.locked_balance@.subrange(0, n as int) =~= self.locked_balance@);
        }
        acc
    }
}

/// A proposal subject to staked-weight voting.
#[derive(Debug, Clone)]
pub struct Poll {
    pub id: u64,
    pub creator: u64,
    pub status: PollStatus,
    pub yes_votes: u64,
    pub no_votes: u64,
    pub start_height: u64,
    pub end_height: u64,
    pub timelock_end: u64,
    pub deposit: u64,
    pub snapshot: Option<Snapshot>,
    pub description: String,
    pub execute_data: Option<Vec<u8>>,
}

/// The big-endian byte encoding of a `u64`, most significant byte first,
/// so that lexicographic byte order equals numeric order.
pub open spec fn spec_u64_be(x: u64) -> Seq<u8> {
    seq![
        (x >> 56) as u8,
        (x >> 48) as u8,
        (x >> 40) as u8,
        (x >> 32) as u8,
        (x >> 24) as u8,
        (x >> 16) as u8,
        (x >> 8) as u8,
        x as u8,
    ]
}

/// Encode `x` as eight big-endian bytes.
pub fn u64_be_bytes(x: u64) -> (r: Vec<u8>)
    ensures
        r@ == spec_u64_be(x),
{
    let mut v: Vec<u8> = Vec::new();
    v.push((x >> 56) as u8);
    v.push((x >> 48) as u8);
    v.push((x >> 40) as u8);
    v.push((x >> 32) as u8);
    v.push((x >> 24) as u8);
    v.push((x >> 16) as u8);
    v.push((x >> 8) as u8);
    v.push(x as u8);
    proof {
        assert(v@ =~= spec_u64_be(x));
    }
    v
}

/// The byte-level start bound for an ascending scan strictly after a key:
/// the key's big-endian bytes with a single `0x01` byte appended, the
/// smallest successor of any key with that prefix.
pub fn calc_range_start(start_after: Option<u64>) -> (r: Option<Vec<u8>>)
    ensures
        match start_after {
            Some(id) => r matches Some(v) && v@ == spec_u64_be(id).push(1u8),
            None => r is None,
        },
{
    match start_after {
        Some(id) => {
            let mut v = u64_be_bytes(id);
            v.push(1u8);
            Some(v)
        },
        None => None,
    }
}

/// The byte-level exclusive end bound for a descending scan strictly
/// before a key: the key's own big-endian bytes.
pub fn calc_range_end(start_after: Option<u64>) -> (r: Option<Vec<u8>>)
    ensures
        match start_after {
            Some(id) => r matches Some(v) && v@ == spec_u64_be(id),
            None => r is None,
        },
{
    match start_after {
        Some(id) => Some(u64_be_bytes(id)),
        None => None,
    }
}

} // verus!
