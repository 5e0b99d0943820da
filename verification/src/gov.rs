//! The governance engine: poll lifecycle, staked-share bookkeeping,
//! vote-weight locking, and the indexed, paginated read path.
//!
//! Two monetary-safety invariants hold in every reachable state and are
//! part of [`Gov::inv`]: the aggregate staked share equals the sum of all
//! stakers' shares, and each staker's locked vote weight never exceeds
//! their share.

use crate::error::ContractError;
use crate::state::{
    dir_weight, lemma_dir_le_sum, lemma_sum_dir_insert, lemma_sum_dir_nonneg, lemma_sum_dir_update,
    lemma_sum_weights_insert, lemma_sum_weights_nonneg, lemma_sum_weights_remove,
    lemma_sum_weights_update, lemma_weight_le_sum, ratio_ge, sum_dir, sum_weights, check_ratio_ge,
    Config, Decimal, Poll, PollStatus, Snapshot, State, TokenManager, VoteInfo, VoteOption,
};
use crate::store::{
    above, below, has_key, key_seq, lookup, range_asc_ok, range_desc_ok, sorted_keys, take_len,
    KeyedStore, OrderBy,
};
use vstd::prelude::*;

verus! {

/// Most results a single query page may return.
pub const MAX_LIMIT: u32 = 30;

/// Page size used when a query names none.
pub const DEFAULT_LIMIT: u32 = 10;

/// Total staked share over a ledger sequence.
pub open spec fn sum_shares(s: Seq<(u64, TokenManager)>) -> int
    decreases s.len(),
{
    if s.len() == 0 {
        0
    } else {
        sum_shares(s.drop_last()) + s.last().1.share
    }
}

pub proof fn lemma_sum_shares_nonneg(s: Seq<(u64, TokenManager)>)
    ensures
        sum_shares(s) >= 0,
    decreases s.len(),
{
    if s.len() > 0 {
        lemma_sum_shares_nonneg(s.drop_last());
    }
}

pub proof fn lemma_sum_shares_insert(s: Seq<(u64, TokenManager)>, p: int, e: (u64, TokenManager))
    requires
        0 <= p <= s.len(),
    ensures
        sum_shares(s.insert(p, e)) == sum_shares(s) + e.1.share,
    decreases s.len(),
{
    let t = s.insert(p, e);
    s.insert_ensures(p, e);
    if p == s.len() {
        assert(t.drop_last() =~= s);
        assert(t.last() == e);
    } else {
        assert(t.drop_last() =~= s.drop_last().insert(p, e));
        lemma_sum_shares_insert(s.drop_last(), p, e);
        assert(t.last() == s.last());
    }
}

pub proof fn lemma_sum_shares_remove(s: Seq<(u64, TokenManager)>, i: int)
    requires
        0 <= i < s.len(),
    ensures
        sum_shares(s.remove(i)) == sum_shares(s) - s[i].1.share,
    decreases s.len(),
{
    let t = s.remove(i);
    s.remove_ensures(i);
    if i == s.len() - 1 {
        assert(t =~= s.drop_last());
    } else {
        assert(t.drop_last() =~= s.drop_last().remove(i));
        lemma_sum_shares_remove(s.drop_last(), i);
        assert(t.last() == s.last());
    }
}

/// A single staker's share never exceeds the ledger total.
pub proof fn lemma_share_le_sum(s: Seq<(u64, TokenManager)>, i: int)
    requires
        0 <= i < s.len(),
    ensures
        s[i].1.share <= sum_shares(s),
    decreases s.len(),
{
    if i == s.len() - 1 {
        lemma_sum_shares_nonneg(s.drop_last());
    } else {
        lemma_share_le_sum(s.drop_last(), i);
    }
}

/// What a poll contributes to the deposit escrow: its deposit while in
/// progress, nothing once resolved.
pub open spec fn deposit_of(p: Poll) -> int {
    if p.status == PollStatus::InProgress {
        p.deposit as int
    } else {
        0
    }
}

/// Total escrowed deposit over a poll sequence.
pub open spec fn sum_deposits(s: Seq<(u64, Poll)>) -> int
    decreases s.len(),
{
    if s.len() == 0 {
        0
    } else {
        sum_deposits(s.drop_last()) + deposit_of(s.last().1)
    }
}

pub proof fn lemma_sum_deposits_nonneg(s: Seq<(u64, Poll)>)
    ensures
        sum_deposits(s) >= 0,
    decreases s.len(),
{
    if s.len() > 0 {
        lemma_sum_deposits_nonneg(s.drop_last());
    }
}

pub proof fn lemma_sum_deposits_insert(s: Seq<(u64, Poll)>, p: int, e: (u64, Poll))
    requires
        0 <= p <= s.len(),
    ensures
        sum_deposits(s.insert(p, e)) == sum_deposits(s) + deposit_of(e.1),
    decreases s.len(),
{
    let t = s.insert(p, e);
    s.insert_ensures(p, e);
    if p == s.len() {
        assert(t.drop_last() =~= s);
        assert(t.last() == e);
    } else {
        assert(t.drop_last() =~= s.drop_last().insert(p, e));
        lemma_sum_deposits_insert(s.drop_last(), p, e);
        assert(t.last() == s.last());
    }
}

pub proof fn lemma_sum_deposits_remove(s: Seq<(u64, Poll)>, i: int)
    requires
        0 <= i < s.len(),
    ensures
        sum_deposits(s.remove(i)) == sum_deposits(s) - deposit_of(s[i].1),
    decreases s.len(),
{
    let t = s.remove(i);
    s.remove_ensures(i);
    if i == s.len() - 1 {
        assert(t =~= s.drop_last());
    } else {
        assert(t.drop_last() =~= s.drop_last().remove(i));
        lemma_sum_deposits_remove(s.drop_last(), i);
        assert(t.last() == s.last());
    }
}

/// One poll's escrow contribution never exceeds the escrow total.
pub proof fn lemma_deposit_le_sum(s: Seq<(u64, Poll)>, i: int)
    requires
        0 <= i < s.len(),
    ensures
        deposit_of(s[i].1) <= sum_deposits(s),
    decreases s.len(),
{
    if i == s.len() - 1 {
        lemma_sum_deposits_nonneg(s.drop_last());
    } else {
        lemma_deposit_le_sum(s.drop_last(), i);
    }
}

/// Multi-key index over polls: one partition of poll ids per status, so
/// that one status can be enumerated without scanning all polls.
pub struct PollIndexer {
    pub in_progress: KeyedStore<()>,
    pub passed: KeyedStore<()>,
    pub rejected: KeyedStore<()>,
    pub executed: KeyedStore<()>,
    pub expired: KeyedStore<()>,
}

impl PollIndexer {
    pub open spec fn wf(&self) -> bool {
        &&& self.in_progress.wf()
        &&& self.passed.wf()
        &&& self.rejected.wf()
        &&& self.executed.wf()
        &&& self.expired.wf()
    }

    /// Membership of `id` in the partition for status `s`.
    pub open spec fn has(&self, s: PollStatus, id: u64) -> bool {
        match s {
            PollStatus::InProgress => self.in_progress.spec_contains(id),
            PollStatus::Passed => self.passed.spec_contains(id),
            PollStatus::Rejected => self.rejected.spec_contains(id),
            PollStatus::Executed => self.executed.spec_contains(id),
            PollStatus::Expired => self.expired.spec_contains(id),
        }
    }

    pub fn new() -> (r: PollIndexer)
        ensures
            r.wf(),
            forall|s: PollStatus, id: u64| !r.has(s, id),
    {
        let r = PollIndexer {
            in_progress: KeyedStore::new(),
            passed: KeyedStore::new(),
            rejected: KeyedStore::new(),
            executed: KeyedStore::new(),
            expired: KeyedStore::new(),
        };
        proof {
            assert forall|s: PollStatus, id: u64| !r.has(s, id) by {
                assert(r.in_progress@.len() == 0);
                assert(r.passed@.len() == 0);
                assert(r.rejected@.len() == 0);
                assert(r.executed@.len() == 0);
                assert(r.expired@.len() == 0);
            }
        }
        r
    }
}

/// The governance engine: global parameters and counters, the share
/// ledger, the poll book, the status index, and the per-poll voter index.
pub struct Gov {
    pub config: Config,
    pub state: State,
    pub bank: KeyedStore<TokenManager>,
    pub polls: KeyedStore<Poll>,
    pub indexer: PollIndexer,
    pub voters: KeyedStore<KeyedStore<VoteInfo>>,
}

impl Gov {
    /// The poll under `id` exists and carries status `s`.
    pub open spec fn poll_status_is(&self, id: u64, s: PollStatus) -> bool {
        match self.polls.spec_get(id) {
            Some(p) => p.status == s,
            None => false,
        }
    }

    /// The recorded votes of poll `id`, empty if none were cast.
    pub open spec fn voters_of(&self, id: u64) -> Seq<(u64, VoteInfo)> {
        match self.voters.spec_get(id) {
            Some(m) => m@,
            None => Seq::<(u64, VoteInfo)>::empty(),
        }
    }

    /// The staker record under `k` is well formed.
    pub open spec fn tm_ok(&self, k: u64) -> bool {
        match self.bank.spec_get(k) {
            Some(tm) => tm.wf(),
            None => true,
        }
    }

    /// Per-poll consistency: the record's key matches its id and stays
    /// below the id counter, the tallies equal the recorded votes, and
    /// each index partition holds exactly the polls of its status.
    pub open spec fn poll_ok(&self, id: u64) -> bool {
        &&& match self.polls.spec_get(id) {
            Some(p) => {
                &&& p.id == id
                &&& id <= self.state.poll_count
                &&& p.yes_votes == sum_dir(self.voters_of(id), VoteOption::Yes)
                &&& p.no_votes == sum_dir(self.voters_of(id), VoteOption::No)
            },
            None => true,
        }
        &&& (self.indexer.in_progress.spec_contains(id) <==> self.poll_status_is(
            id,
            PollStatus::InProgress,
        ))
        &&& (self.indexer.passed.spec_contains(id) <==> self.poll_status_is(
            id,
            PollStatus::Passed,
        ))
        &&& (self.indexer.rejected.spec_contains(id) <==> self.poll_status_is(
            id,
            PollStatus::Rejected,
        ))
        &&& (self.indexer.executed.spec_contains(id) <==> self.poll_status_is(
            id,
            PollStatus::Executed,
        ))
        &&& (self.indexer.expired.spec_contains(id) <==> self.poll_status_is(
            id,
            PollStatus::Expired,
        ))
    }

    /// The voter map under `id` is well formed and belongs to a poll.
    pub open spec fn voters_ok(&self, id: u64) -> bool {
        match self.voters.spec_get(id) {
            Some(m) => m.wf() && self.polls.spec_contains(id),
            None => true,
        }
    }

    /// Engine-wide well-formedness, preserved by every operation.
    pub open spec fn inv(&self) -> bool {
        &&& self.config.wf()
        &&& self.bank.wf()
        &&& forall|k: u64| #[trigger] self.tm_ok(k)
        &&& self.state.total_share == sum_shares(self.bank@)
        &&& self.polls.wf()
        &&& forall|id: u64| #[trigger] self.poll_ok(id)
        &&& self.indexer.wf()
        &&& self.voters.wf()
        &&& forall|id: u64| #[trigger] self.voters_ok(id)
        &&& self.state.total_deposit == sum_deposits(self.polls@)
    }

    /// The aggregate staked share always equals the sum of every
    /// staker's share.
    pub proof fn lemma_total_share_is_sum(&self)
        requires
            self.inv(),
        ensures
            self.state.total_share == sum_shares(self.bank@),
    {
    }

    /// No staker's locked vote weight ever exceeds their share.
    pub proof fn lemma_locked_le_share(&self, staker: u64)
        requires
            self.inv(),
        ensures
            match self.bank.spec_get(staker) {
                Some(tm) => sum_weights(tm.locked_balance@) <= tm.share,
                None => true,
            },
    {
        assert(self.tm_ok(staker));
    }

    pub fn new(config: Config) -> (r: Gov)
        requires
            config.wf(),
        ensures
            r.inv(),
            r.config == config,
            r.state == (State { total_share: 0, total_deposit: 0, poll_count: 0 }),
            r.bank@.len() == 0,
            r.polls@.len() == 0,
    {
        let r = Gov {
            config,
            state: State { total_share: 0, total_deposit: 0, poll_count: 0 },
            bank: KeyedStore::new(),
            polls: KeyedStore::new(),
            indexer: PollIndexer::new(),
            voters: KeyedStore::new(),
        };
        proof {
            assert forall|k: u64| #[trigger] r.tm_ok(k) by {}
            assert forall|id: u64| #[trigger] r.poll_ok(id) by {
                assert(!r.indexer.has(PollStatus::InProgress, id));
                assert(!r.indexer.has(PollStatus::Passed, id));
                assert(!r.indexer.has(PollStatus::Rejected, id));
                assert(!r.indexer.has(PollStatus::Executed, id));
                assert(!r.indexer.has(PollStatus::Expired, id));
            }
            assert forall|id: u64| #[trigger] r.voters_ok(id) by {}
        }
        r
    }

    /// Increase `staker`'s share and the aggregate total by `amount`.
    /// Rejects a zero amount; overflow is excluded by precondition, as
    /// share arithmetic must never wrap.
    pub fn stake(&mut self, staker: u64, amount: u64) -> (r: Result<(), ContractError>)
        requires
            old(self).inv(),
            amount > 0 ==> old(self).state.total_share + amount <= u64::MAX,
        ensures
            final(self).inv(),
            r is Err <==> amount == 0,
            r is Err ==> r == Err::<(), ContractError>(ContractError::InsufficientFunds) && *final(self) == *old(self),
            r is Ok ==> {
                &&& final(self).config == old(self).config
                &&& final(self).state.total_share == old(self).state.total_share + amount
                &&& final(self).state.total_deposit == old(self).state.total_deposit
                &&& final(self).state.poll_count == old(self).state.poll_count
                &&& final(self).polls@ == old(self).polls@
                &&& final(self).voters@ == old(self).voters@
                &&& final(self).indexer.in_progress@ == old(self).indexer.in_progress@
                &&& match (old(self).bank.spec_get(staker), final(self).bank.spec_get(staker)) {
                    (None, Some(tm2)) => tm2.share == amount && tm2.locked_balance@.len() == 0,
                    (Some(tm1), Some(tm2)) => tm2.share == tm1.share + amount
                        && tm2.locked_balance@ == tm1.locked_balance@,
                    _ => false,
                }
                &&& forall|k: u64|
                    k != staker ==> final(self).bank.spec_get(k) == old(self).bank.spec_get(k)
            },
    {
        if amount == 0 {
            return Err(ContractError::InsufficientFunds);
        }
        proof {
            assert(old(self).tm_ok(staker));
            if has_key(self.bank@, staker) {
                crate::store::lemma_key_at(self.bank@, staker, crate::store::key_index(self.bank@, staker));
                lemma_share_le_sum(self.bank@, crate::store::key_index(self.bank@, staker));
            }
        }
        let ghost bank0 = self.bank@;
        let mut tm = match self.bank.remove_key(staker) {
            Some(t) => t,
            None => TokenManager::new(),
        };
        proof {
            if has_key(bank0, staker) {
                lemma_sum_shares_remove(bank0, crate::store::key_index(bank0, staker));
            }
        }
        tm.share = tm.share + amount;
        let ghost tm_new = tm;
        self.bank.upsert(staker, tm);
        proof {
            let bank1 = if has_key(bank0, staker) {
                bank0.remove(crate::store::key_index(bank0, staker))
            } else {
                bank0
            };
            assert(!has_key(bank1, staker));
            let p = choose|p: int| 0 <= p <= bank1.len() && self.bank@ == bank1.insert(p, (staker, tm_new));
            lemma_sum_shares_insert(bank1, p, (staker, tm_new));
        }
        self.state.total_share = self.state.total_share + amount;
        proof {
            assert forall|k: u64| #[trigger] self.tm_ok(k) by {
                assert(old(self).tm_ok(k));
                if k == staker {
                    lemma_sum_weights_nonneg(tm_new.locked_balance@);
                }
            }
            assert forall|id: u64| #[trigger] self.poll_ok(id) by {
                assert(old(self).poll_ok(id));
            }
            assert forall|id: u64| #[trigger] self.voters_ok(id) by {
                assert(old(self).voters_ok(id));
            }
        }
        Ok(())
    }

    /// Decrease `staker`'s share by `amount`, refusing to dip into
    /// weight locked in polls.
    pub fn withdraw_share(&mut self, staker: u64, amount: u64) -> (r: Result<(), ContractError>)
        requires
            old(self).inv(),
        ensures
            final(self).inv(),
            r is Err ==> *final(self) == *old(self),
            match old(self).bank.spec_get(staker) {
                None => r == Err::<(), ContractError>(ContractError::NothingStaked),
                Some(tm) => {
                    if amount + sum_weights(tm.locked_balance@) > tm.share {
                        r == Err::<(), ContractError>(ContractError::StakeLockedInActivePoll)
                    } else {
                        r is Ok
                    }
                },
            },
            r is Ok ==> {
                &&& final(self).config == old(self).config
                &&& final(self).state.total_share == old(self).state.total_share - amount
                &&& final(self).state.total_deposit == old(self).state.total_deposit
                &&& final(self).state.poll_count == old(self).state.poll_count
                &&& final(self).polls@ == old(self).polls@
                &&& final(self).voters@ == old(self).voters@
                &&& match (old(self).bank.spec_get(staker), final(self).bank.spec_get(staker)) {
                    (Some(tm1), Some(tm2)) => tm2.share == tm1.share - amount
                        && tm2.locked_balance@ == tm1.locked_balance@,
                    _ => false,
                }
                &&& forall|k: u64|
                    k != staker ==> final(self).bank.spec_get(k) == old(self).bank.spec_get(k)
            },
    {
        proof {
            assert(old(self).tm_ok(staker));
        }
        let (share, locked) = match self.bank.get(staker) {
            None => {
                return Err(ContractError::NothingStaked);
            },
            Some(tm) => (tm.share, tm.locked_total()),
        };
        if amount > share - locked {
            return Err(ContractError::StakeLockedInActivePoll);
        }
        proof {
            crate::store::lemma_key_at(self.bank@, staker, crate::store::key_index(self.bank@, staker));
            lemma_share_le_sum(self.bank@, crate::store::key_index(self.bank@, staker));
        }
        let ghost bank0 = self.bank@;
        let mut tm = match self.bank.remove_key(staker) {
            Some(t) => t,
            None => TokenManager::new(),
        };
        proof {
            lemma_sum_shares_remove(bank0, crate::store::key_index(bank0, staker));
        }
        tm.share = tm.share - amount;
        let ghost tm_new = tm;
        self.bank.upsert(staker, tm);
        proof {
            let bank1 = bank0.remove(crate::store::key_index(bank0, staker));
            assert(!has_key(bank1, staker));
            let p = choose|p: int| 0 <= p <= bank1.len() && self.bank@ == bank1.insert(p, (staker, tm_new));
            lemma_sum_shares_insert(bank1, p, (staker, tm_new));
        }
        self.state.total_share = self.state.total_share - amount;
        proof {
            assert forall|k: u64| #[trigger] self.tm_ok(k) by {
                assert(old(self).tm_ok(k));
            }
            assert forall|id: u64| #[trigger] self.poll_ok(id) by {
                assert(old(self).poll_ok(id));
            }
            assert forall|id: u64| #[trigger] self.voters_ok(id) by {
                assert(old(self).voters_ok(id));
            }
        }
        Ok(())
    }

    /// A poll no longer holds vote weight: it is absent or in a terminal
    /// status (`Rejected`, `Executed`, `Expired`).
    pub open spec fn unlock_allowed(&self, poll_id: u64) -> bool {
        match self.polls.spec_get(poll_id) {
            Some(p) => p.status != PollStatus::InProgress && p.status != PollStatus::Passed,
            None => true,
        }
    }

    /// Release the weight `staker` locked in a resolved poll.  Releasing
    /// twice has the same effect as once: when no lock record remains,
    /// the call succeeds and changes nothing.
    pub fn unlock(&mut self, staker: u64, poll_id: u64) -> (r: Result<(), ContractError>)
        requires
            old(self).inv(),
        ensures
            final(self).inv(),
            r is Ok <==> old(self).unlock_allowed(poll_id),
            r is Err ==> r == Err::<(), ContractError>(ContractError::PollNotResolved) && *final(self) == *old(self),
            r is Ok ==> {
                &&& final(self).config == old(self).config
                &&& final(self).state == old(self).state
                &&& final(self).polls@ == old(self).polls@
                &&& final(self).voters@ == old(self).voters@
                &&& forall|k: u64|
                    k != staker ==> final(self).bank.spec_get(k) == old(self).bank.spec_get(k)
                &&& match (old(self).bank.spec_get(staker), final(self).bank.spec_get(staker)) {
                    (None, None) => true,
                    (Some(t1), Some(t2)) => t2.share == t1.share && t2.locked_balance.spec_get(
                        poll_id,
                    ) is None && forall|p2: u64|
                        p2 != poll_id ==> t2.locked_balance.spec_get(p2)
                            == t1.locked_balance.spec_get(p2),
                    _ => false,
                }
            },
            // releasing an already-released lock is a no-op
            r is Ok && (match old(self).bank.spec_get(staker) {
                Some(t1) => t1.locked_balance.spec_get(poll_id) is None,
                None => true,
            }) ==> *final(self) == *old(self),
    {
        match self.polls.get(poll_id) {
            Some(p) => {
                if p.status == PollStatus::InProgress || p.status == PollStatus::Passed {
                    return Err(ContractError::PollNotResolved);
                }
            },
            None => {},
        }
        proof {
            assert(old(self).tm_ok(staker));
        }
        let present = match self.bank.get(staker) {
            Some(tm) => tm.locked_balance.contains(poll_id),
            None => false,
        };
        if !present {
            return Ok(());
        }
        proof {
            crate::store::lemma_key_at(self.bank@, staker, crate::store::key_index(self.bank@, staker));
            lemma_share_le_sum(self.bank@, crate::store::key_index(self.bank@, staker));
        }
        let ghost bank0 = self.bank@;
        let mut tm = match self.bank.remove_key(staker) {
            Some(t) => t,
            None => TokenManager::new(),
        };
        proof {
            lemma_sum_shares_remove(bank0, crate::store::key_index(bank0, staker));
            let lb = tm.locked_balance@;
            if has_key(lb, poll_id) {
                lemma_sum_weights_remove(lb, crate::store::key_index(lb, poll_id));
                lemma_weight_le_sum(lb, crate::store::key_index(lb, poll_id));
            }
        }
        tm.locked_balance.remove_key(poll_id);
        let ghost tm_new = tm;
        self.bank.upsert(staker, tm);
        proof {
            let bank1 = bank0.remove(crate::store::key_index(bank0, staker));
            assert(!has_key(bank1, staker));
            let p = choose|p: int| 0 <= p <= bank1.len() && self.bank@ == bank1.insert(p, (staker, tm_new));
            lemma_sum_shares_insert(bank1, p, (staker, tm_new));
            assert forall|k: u64| #[trigger] self.tm_ok(k) by {
                assert(old(self).tm_ok(k));
            }
            assert forall|id: u64| #[trigger] self.poll_ok(id) by {
                assert(old(self).poll_ok(id));
            }
            assert forall|id: u64| #[trigger] self.voters_ok(id) by {
                assert(old(self).voters_ok(id));
            }
        }
        Ok(())
    }

    /// The configured global parameters.
    pub fn query_config(&self) -> (r: &Config)
        ensures
            *r == self.config,
    {
        &self.config
    }

    /// The aggregate counters.
    pub fn query_state(&self) -> (r: &State)
        ensures
            *r == self.state,
    {
        &self.state
    }

    /// A staker's share and lock records, if the staker exists.
    pub fn query_staker(&self, staker: u64) -> (r: Option<&TokenManager>)
        requires
            self.inv(),
        ensures
            match r {
                Some(tm) => self.bank.spec_get(staker) == Some(*tm),
                None => self.bank.spec_get(staker) is None,
            },
    {
        self.bank.get(staker)
    }

    /// A single poll record, if it exists.
    pub fn query_poll(&self, poll_id: u64) -> (r: Option<&Poll>)
        requires
            self.inv(),
        ensures
            match r {
                Some(p) => self.polls.spec_get(poll_id) == Some(*p),
                None => self.polls.spec_get(poll_id) is None,
            },
    {
        self.polls.get(poll_id)
    }

    /// Adjust the governance ratios.  Only the configured owner may do
    /// so; everything else about the engine is untouched.
    pub fn update_config(
        &mut self,
        sender: u64,
        quorum: Option<Decimal>,
        threshold: Option<Decimal>,
    ) -> (r: Result<(), ContractError>)
        requires
            old(self).inv(),
            match quorum {
                Some(q) => q.at_most_one(),
                None => true,
            },
            match threshold {
                Some(t) => t.at_most_one(),
                None => true,
            },
        ensures
            final(self).inv(),
            r is Err <==> sender != old(self).config.owner,
            r is Err ==> r == Err::<(), ContractError>(ContractError::Unauthorized) && *final(self)
                == *old(self),
            r is Ok ==> {
                &&& final(self).config.quorum == (match quorum {
                    Some(q) => q,
                    None => old(self).config.quorum,
                })
                &&& final(self).config.threshold == (match threshold {
                    Some(t) => t,
                    None => old(self).config.threshold,
                })
                &&& final(self).config.owner == old(self).config.owner
                &&& final(self).config.gov_token == old(self).config.gov_token
                &&& final(self).config.voting_period == old(self).config.voting_period
                &&& final(self).config.timelock_period == old(self).config.timelock_period
                &&& final(self).config.expiration_period == old(self).config.expiration_period
                &&& final(self).config.proposal_deposit == old(self).config.proposal_deposit
                &&& final(self).config.snapshot_period == old(self).config.snapshot_period
                &&& final(self).state == old(self).state
                &&& final(self).bank@ == old(self).bank@
                &&& final(self).polls@ == old(self).polls@
                &&& final(self).voters@ == old(self).voters@
            },
    {
        if sender != self.config.owner {
            return Err(ContractError::Unauthorized);
        }
        match quorum {
            Some(q) => {
                self.config.quorum = q;
            },
            None => {},
        }
        match threshold {
            Some(t) => {
                self.config.threshold = t;
            },
            None => {},
        }
        proof {
            assert forall|k: u64| #[trigger] self.tm_ok(k) by {
                assert(old(self).tm_ok(k));
            }
            assert forall|id: u64| #[trigger] self.poll_ok(id) by {
                assert(old(self).poll_ok(id));
            }
            assert forall|id: u64| #[trigger] self.voters_ok(id) by {
                assert(old(self).voters_ok(id));
            }
        }
        Ok(())
    }
}

/// An ascending page at split `lo`: everything before `lo` is at or
/// before the cursor, everything from `lo` on is strictly after it, and
/// `r` lists the first `limit` keys from `lo` on, in order.
pub open spec fn page_asc_at(
    keys: Seq<u64>,
    cursor: Option<u64>,
    limit: int,
    r: Seq<u64>,
    lo: int,
) -> bool {
    &&& 0 <= lo <= keys.len()
    &&& forall|j: int| 0 <= j < lo ==> !above(#[trigger] keys[j], cursor)
    &&& forall|j: int| lo <= j < keys.len() ==> above(#[trigger] keys[j], cursor)
    &&& r.len() == take_len(keys.len() - lo, limit)
    &&& forall|x: int| 0 <= x < r.len() ==> r[x] == keys[lo + x]
}

/// `r` is the ascending page of `keys` strictly after `cursor`.
pub open spec fn page_asc(keys: Seq<u64>, cursor: Option<u64>, limit: int, r: Seq<u64>) -> bool {
    exists|lo: int| #[trigger] page_asc_at(keys, cursor, limit, r, lo)
}

/// A descending page at split `hi`: everything before `hi` is strictly
/// before the cursor, and `r` lists the last `limit` keys before `hi`,
/// from highest to lowest.
pub open spec fn page_desc_at(
    keys: Seq<u64>,
    cursor: Option<u64>,
    limit: int,
    r: Seq<u64>,
    hi: int,
) -> bool {
    &&& 0 <= hi <= keys.len()
    &&& forall|j: int| 0 <= j < hi ==> below(#[trigger] keys[j], cursor)
    &&& forall|j: int| hi <= j < keys.len() ==> !below(#[trigger] keys[j], cursor)
    &&& r.len() == take_len(hi, limit)
    &&& forall|x: int| 0 <= x < r.len() ==> r[x] == keys[hi - 1 - x]
}

/// `r` is the descending page of `keys` strictly before `cursor`.
pub open spec fn page_desc(keys: Seq<u64>, cursor: Option<u64>, limit: int, r: Seq<u64>) -> bool {
    exists|hi: int| #[trigger] page_desc_at(keys, cursor, limit, r, hi)
}

pub proof fn lemma_range_to_page_asc<V>(
    s: Seq<(u64, V)>,
    cursor: Option<u64>,
    limit: int,
    r: Seq<u64>,
)
    requires
        exists|lo: int| #[trigger] range_asc_ok(s, cursor, limit, r, lo),
    ensures
        page_asc(key_seq(s), cursor, limit, r),
{
    let lo = choose|lo: int| #[trigger] range_asc_ok(s, cursor, limit, r, lo);
    assert(page_asc_at(key_seq(s), cursor, limit, r, lo)) by {
        assert(forall|j: int| 0 <= j < s.len() ==> #[trigger] key_seq(s)[j] == s[j].0);
    }
}

pub proof fn lemma_range_to_page_desc<V>(
    s: Seq<(u64, V)>,
    cursor: Option<u64>,
    limit: int,
    r: Seq<u64>,
)
    requires
        exists|hi: int| #[trigger] range_desc_ok(s, cursor, limit, r, hi),
    ensures
        page_desc(key_seq(s), cursor, limit, r),
{
    let hi = choose|hi: int| #[trigger] range_desc_ok(s, cursor, limit, r, hi);
    assert(page_desc_at(key_seq(s), cursor, limit, r, hi)) by {
        assert(forall|j: int| 0 <= j < s.len() ==> #[trigger] key_seq(s)[j] == s[j].0);
    }
}

/// `k` occurs among the first `i` keys of `s`.
pub open spec fn in_prefix(s: Seq<(u64, VoteInfo)>, i: int, k: u64) -> bool {
    exists|j: int| 0 <= j < i && (#[trigger] s[j].0) == k
}

/// The staker record went from `o` to `n` by releasing the lock held
/// for `poll_id`, leaving share and every other lock unchanged.
pub open spec fn lock_released(
    o: Option<TokenManager>,
    n: Option<TokenManager>,
    poll_id: u64,
) -> bool {
    match (o, n) {
        (None, None) => true,
        (Some(a), Some(b)) => {
            &&& b.share == a.share
            &&& b.locked_balance.spec_get(poll_id) is None
            &&& forall|p2: u64|
                p2 != poll_id ==> b.locked_balance.spec_get(p2) == a.locked_balance.spec_get(p2)
        },
        _ => false,
    }
}

/// What a prior vote contributed to direction `d`, zero if none.
pub open spec fn prior_dir(o: Option<VoteInfo>, d: VoteOption) -> int {
    match o {
        Some(vi) => dir_weight(vi, d),
        None => 0,
    }
}

/// The quorum denominator: the snapshot total if one was captured, the
/// aggregate staked share at tally time otherwise.
pub open spec fn quorum_denominator(p: Poll, total_share_now: u64) -> int {
    match p.snapshot {
        Some(s) => s.total_share as int,
        None => total_share_now as int,
    }
}

/// The tally rule: a poll passes when it drew any votes at all, turnout
/// reaches the quorum ratio of the denominator, and the yes-fraction
/// reaches the threshold.  Zero turnout never passes and never divides.
pub open spec fn poll_passes(p: Poll, cfg: Config, total_share_now: u64) -> bool {
    let total = p.yes_votes + p.no_votes;
    &&& total > 0
    &&& ratio_ge(total, quorum_denominator(p, total_share_now), cfg.quorum)
    &&& ratio_ge(p.yes_votes as int, total, cfg.threshold)
}

/// `q` is `p` resolved: tallied into `Passed` or `Rejected`, with the
/// timelock end set on pass, every other field untouched.
pub open spec fn poll_resolved_as(p: Poll, q: Poll, passes: bool, timelock_end: int) -> bool {
    &&& q.id == p.id
    &&& q.creator == p.creator
    &&& q.status == (if passes { PollStatus::Passed } else { PollStatus::Rejected })
    &&& q.yes_votes == p.yes_votes
    &&& q.no_votes == p.no_votes
    &&& q.start_height == p.start_height
    &&& q.end_height == p.end_height
    &&& q.timelock_end == (if passes { timelock_end } else { p.timelock_end as int })
    &&& q.deposit == p.deposit
    &&& q.snapshot == p.snapshot
    &&& q.description == p.description
    &&& q.execute_data == p.execute_data
}

/// `q` is `p` with only its status changed to `st`.
pub open spec fn poll_with_status(p: Poll, q: Poll, st: PollStatus) -> bool {
    &&& q.id == p.id
    &&& q.creator == p.creator
    &&& q.status == st
    &&& q.yes_votes == p.yes_votes
    &&& q.no_votes == p.no_votes
    &&& q.start_height == p.start_height
    &&& q.end_height == p.end_height
    &&& q.timelock_end == p.timelock_end
    &&& q.deposit == p.deposit
    &&& q.snapshot == p.snapshot
    &&& q.description == p.description
    &&& q.execute_data == p.execute_data
}

/// `q` is `p` after a vote replaced this voter's prior contribution:
/// the snapshot is captured if due, the tallies drop the prior vote and
/// add the new one, and every other field is untouched.
pub open spec fn poll_after_vote(
    p: Poll,
    q: Poll,
    cfg: Config,
    total_share_then: u64,
    prior: Option<VoteInfo>,
    vote: VoteOption,
    weight: u64,
    now: u64,
) -> bool {
    &&& q.id == p.id
    &&& q.creator == p.creator
    &&& q.status == PollStatus::InProgress
    &&& q.yes_votes == p.yes_votes - prior_dir(prior, VoteOption::Yes) + (if vote
        == VoteOption::Yes {
        weight as int
    } else {
        0
    })
    &&& q.no_votes == p.no_votes - prior_dir(prior, VoteOption::No) + (if vote == VoteOption::No {
        weight as int
    } else {
        0
    })
    &&& q.start_height == p.start_height
    &&& q.end_height == p.end_height
    &&& q.timelock_end == p.timelock_end
    &&& q.deposit == p.deposit
    &&& q.snapshot == (if p.snapshot is None && now >= p.start_height + cfg.snapshot_period {
        Some(Snapshot { height: now, total_share: total_share_then })
    } else {
        p.snapshot
    })
    &&& q.description == p.description
    &&& q.execute_data == p.execute_data
}

/// The weight a staker may still commit to `poll_id`: the unlocked part
/// of the share, plus whatever the prior vote on this very poll already
/// locked, since a re-vote replaces it.
pub open spec fn avail_weight(tm: TokenManager, poll_id: u64) -> int {
    tm.share - sum_weights(tm.locked_balance@) + tm.locked_weight_for(poll_id)
}

/// The page size a query uses: the requested limit clamped to
/// `[1, MAX_LIMIT]`, `DEFAULT_LIMIT` when absent.
pub open spec fn spec_limit(limit: Option<u32>) -> int {
    let x: int = match limit {
        Some(v) => v as int,
        None => DEFAULT_LIMIT as int,
    };
    if x < 1 {
        1
    } else if x > MAX_LIMIT as int {
        MAX_LIMIT as int
    } else {
        x
    }
}

/// Clamp a requested page size to `[1, MAX_LIMIT]`.
pub fn clamp_limit(limit: Option<u32>) -> (r: usize)
    ensures
        r == spec_limit(limit),
{
    let x: u32 = match limit {
        Some(v) => v,
        None => DEFAULT_LIMIT,
    };
    let y: u32 = if x < 1 {
        1
    } else if x > MAX_LIMIT {
        MAX_LIMIT
    } else {
        x
    };
    y as usize
}

impl Gov {
    /// Open a new poll: escrow the deposit, assign the next id from the
    /// monotonically increasing counter, and index it as in progress.
    pub fn create_poll(
        &mut self,
        creator: u64,
        deposit: u64,
        description: String,
        execute_data: Option<Vec<u8>>,
        now: u64,
    ) -> (r: Result<u64, ContractError>)
        requires
            old(self).inv(),
            deposit >= old(self).config.proposal_deposit ==> {
                &&& old(self).state.poll_count < u64::MAX
                &&& old(self).state.total_deposit + deposit <= u64::MAX
                &&& now + old(self).config.voting_period <= u64::MAX
            },
        ensures
            final(self).inv(),
            r is Err <==> deposit < old(self).config.proposal_deposit,
            r is Err ==> r == Err::<u64, ContractError>(ContractError::InsufficientDeposit)
                && *final(self) == *old(self),
            r is Ok ==> ({
                let id = (old(self).state.poll_count + 1) as u64;
                &&& r == Ok::<u64, ContractError>(id)
                &&& final(self).config == old(self).config
                &&& final(self).state.poll_count == id
                &&& final(self).state.total_deposit == old(self).state.total_deposit + deposit
                &&& final(self).state.total_share == old(self).state.total_share
                &&& final(self).bank@ == old(self).bank@
                &&& final(self).voters@ == old(self).voters@
                &&& final(self).polls.spec_get(id) == Some(
                    Poll {
                        id,
                        creator,
                        status: PollStatus::InProgress,
                        yes_votes: 0,
                        no_votes: 0,
                        start_height: now,
                        end_height: (now + old(self).config.voting_period) as u64,
                        timelock_end: 0,
                        deposit,
                        snapshot: None,
                        description,
                        execute_data,
                    },
                )
                &&& forall|id2: u64|
                    id2 != id ==> final(self).polls.spec_get(id2) == old(self).polls.spec_get(id2)
            }),
    {
        if deposit < self.config.proposal_deposit {
            return Err(ContractError::InsufficientDeposit);
        }
        let id = self.state.poll_count + 1;
        proof {
            assert(old(self).poll_ok(id));
            if has_key(self.polls@, id) {
                crate::store::lemma_key_at(self.polls@, id, crate::store::key_index(self.polls@, id));
            }
            assert(!has_key(self.polls@, id));
            assert(old(self).voters_ok(id));
        }
        let poll = Poll {
            id,
            creator,
            status: PollStatus::InProgress,
            yes_votes: 0,
            no_votes: 0,
            start_height: now,
            end_height: now + self.config.voting_period,
            timelock_end: 0,
            deposit,
            snapshot: None,
            description,
            execute_data,
        };
        let ghost poll_g = poll;
        let ghost polls0 = self.polls@;
        self.polls.upsert(id, poll);
        self.indexer.in_progress.upsert(id, ());
        self.state.poll_count = id;
        self.state.total_deposit = self.state.total_deposit + deposit;
        proof {
            let p = choose|p: int| 0 <= p <= polls0.len() && self.polls@ == polls0.insert(p, (id, poll_g));
            lemma_sum_deposits_insert(polls0, p, (id, poll_g));
            assert forall|k: u64| #[trigger] self.tm_ok(k) by {
                assert(old(self).tm_ok(k));
            }
            assert forall|id2: u64| #[trigger] self.voters_ok(id2) by {
                assert(old(self).voters_ok(id2));
            }
            assert forall|id2: u64| #[trigger] self.poll_ok(id2) by {
                assert(old(self).poll_ok(id2));
                if id2 == id {
                    assert(self.voters.spec_get(id) is None);
                    assert(self.voters_of(id) =~= Seq::<(u64, VoteInfo)>::empty());
                    assert(sum_dir(self.voters_of(id), VoteOption::Yes) == 0);
                    assert(sum_dir(self.voters_of(id), VoteOption::No) == 0);
                }
            }
        }
        Ok(id)
    }

    /// The staker exists and has enough unlocked share for this weight.
    pub open spec fn voter_can_cast(&self, voter: u64, poll_id: u64, weight: u64) -> bool {
        match self.bank.spec_get(voter) {
            Some(tm) => weight <= avail_weight(tm, poll_id),
            None => false,
        }
    }

    /// All preconditions of a vote hold: the poll exists, is in
    /// progress, its voting period still runs, and the voter has enough
    /// unlocked share.
    pub open spec fn cast_vote_allowed(
        &self,
        voter: u64,
        poll_id: u64,
        weight: u64,
        now: u64,
    ) -> bool {
        match self.polls.spec_get(poll_id) {
            Some(p) => p.status == PollStatus::InProgress && now <= p.end_height
                && self.voter_can_cast(voter, poll_id, weight),
            None => false,
        }
    }

    /// Cast or replace a vote: lock the weight, record the vote under
    /// the poll's voter index, update the tallies so that only the
    /// latest vote of this voter counts, and capture the quorum
    /// snapshot if it is due.  A voter's usable weight is the unlocked
    /// part of their share at cast time; the snapshot fixes only the
    /// quorum denominator.
    #[verifier::rlimit(80)]
    pub fn cast_vote(
        &mut self,
        voter: u64,
        poll_id: u64,
        vote: VoteOption,
        weight: u64,
        now: u64,
    ) -> (r: Result<(), ContractError>)
        requires
            old(self).inv(),
            old(self).cast_vote_allowed(voter, poll_id, weight, now) ==> match old(
                self,
            ).polls.spec_get(poll_id) {
                Some(p) => p.yes_votes + p.no_votes + weight <= u64::MAX,
                None => true,
            },
        ensures
            final(self).inv(),
            r is Ok <==> old(self).cast_vote_allowed(voter, poll_id, weight, now),
            r is Err ==> *final(self) == *old(self),
            match old(self).polls.spec_get(poll_id) {
                None => r == Err::<(), ContractError>(ContractError::PollNotFound),
                Some(p) => {
                    if p.status != PollStatus::InProgress {
                        r == Err::<(), ContractError>(ContractError::PollNotInProgress)
                    } else if now > p.end_height {
                        r == Err::<(), ContractError>(ContractError::PollExpiredByHeight)
                    } else if !old(self).voter_can_cast(voter, poll_id, weight) {
                        r == Err::<(), ContractError>(ContractError::InsufficientStakedWeight)
                    } else {
                        r is Ok
                    }
                },
            },
            r is Ok ==> ({
                &&& final(self).config == old(self).config
                &&& final(self).state == old(self).state
                &&& final(self).indexer.in_progress@ == old(self).indexer.in_progress@
                &&& match (old(self).polls.spec_get(poll_id), final(self).polls.spec_get(
                    poll_id,
                )) {
                    (Some(p), Some(q)) => poll_after_vote(
                        p,
                        q,
                        old(self).config,
                        old(self).state.total_share,
                        lookup(old(self).voters_of(poll_id), voter),
                        vote,
                        weight,
                        now,
                    ),
                    _ => false,
                }
                &&& forall|id2: u64|
                    id2 != poll_id ==> final(self).polls.spec_get(id2) == old(self).polls.spec_get(
                        id2,
                    )
                &&& forall|pid: u64|
                    pid != poll_id ==> final(self).voters.spec_get(pid) == old(
                        self,
                    ).voters.spec_get(pid)
                &&& lookup(final(self).voters_of(poll_id), voter) == Some(
                    VoteInfo { vote, weight },
                )
                &&& forall|v2: u64|
                    v2 != voter ==> lookup(final(self).voters_of(poll_id), v2) == lookup(
                        old(self).voters_of(poll_id),
                        v2,
                    )
                &&& forall|k: u64|
                    k != voter ==> final(self).bank.spec_get(k) == old(self).bank.spec_get(k)
                &&& match (old(self).bank.spec_get(voter), final(self).bank.spec_get(voter)) {
                    (Some(t1), Some(t2)) => t2.share == t1.share && t2.locked_balance.spec_get(
                        poll_id,
                    ) == Some(VoteInfo { vote, weight }) && forall|p2: u64|
                        p2 != poll_id ==> t2.locked_balance.spec_get(p2)
                            == t1.locked_balance.spec_get(p2),
                    _ => false,
                }
            }),
    {
        match self.polls.get(poll_id) {
            None => {
                return Err(ContractError::PollNotFound);
            },
            Some(p) => {
                if p.status != PollStatus::InProgress {
                    return Err(ContractError::PollNotInProgress);
                }
                if now > p.end_height {
                    return Err(ContractError::PollExpiredByHeight);
                }
            },
        }
        proof {
            assert(old(self).tm_ok(voter));
        }
        let (share, locked, prior_lock_w) = match self.bank.get(voter) {
            None => {
                return Err(ContractError::InsufficientStakedWeight);
            },
            Some(tm) => {
                let lt = tm.locked_total();
                let pw = match tm.locked_balance.get(poll_id) {
                    Some(vi) => vi.weight,
                    None => 0,
                };
                (tm.share, lt, pw)
            },
        };
        proof {
            match old(self).bank.spec_get(voter) {
                Some(tm) => {
                    let lb = tm.locked_balance@;
                    if has_key(lb, poll_id) {
                        crate::store::lemma_key_at(lb, poll_id, crate::store::key_index(lb, poll_id));
                        lemma_weight_le_sum(lb, crate::store::key_index(lb, poll_id));
                    }
                },
                None => {},
            }
        }
        let avail = share - locked + prior_lock_w;
        if weight > avail {
            return Err(ContractError::InsufficientStakedWeight);
        }
        assert(old(self).cast_vote_allowed(voter, poll_id, weight, now));
        // record the vote in the poll's voter index and retally
        proof {
            assert(old(self).voters_ok(poll_id));
            assert(old(self).poll_ok(poll_id));
        }
        let ghost polls0 = self.polls@;
        let mut poll = self.polls.remove_key(poll_id).unwrap();
        if poll.snapshot.is_none() && (now as u128) >= (poll.start_height as u128) + (
        self.config.snapshot_period as u128) {
            poll.snapshot = Some(Snapshot { height: now, total_share: self.state.total_share });
        }
        let mut vm = match self.voters.remove_key(poll_id) {
            Some(m) => m,
            None => KeyedStore::new(),
        };
        let ghost vm0 = vm@;
        proof {
            assert(vm0 =~= old(self).voters_of(poll_id));
        }
        let prior: Option<VoteInfo> = match vm.get(voter) {
            Some(vi) => Some(*vi),
            None => None,
        };
        let prior_yes: u64 = match prior {
            Some(vi) => if vi.vote == VoteOption::Yes {
                vi.weight
            } else {
                0
            },
            None => 0,
        };
        let prior_no: u64 = match prior {
            Some(vi) => if vi.vote == VoteOption::No {
                vi.weight
            } else {
                0
            },
            None => 0,
        };
        proof {
            if has_key(vm0, voter) {
                let j = crate::store::key_index(vm0, voter);
                crate::store::lemma_key_at(vm0, voter, j);
                if vm0[j].1.vote == VoteOption::Yes {
                    lemma_dir_le_sum(vm0, j, VoteOption::Yes);
                } else {
                    lemma_dir_le_sum(vm0, j, VoteOption::No);
                }
            }
            lemma_sum_dir_nonneg(vm0, VoteOption::Yes);
            lemma_sum_dir_nonneg(vm0, VoteOption::No);
        }
        let add_yes: u64 = if vote == VoteOption::Yes {
            weight
        } else {
            0
        };
        let add_no: u64 = if vote == VoteOption::No {
            weight
        } else {
            0
        };
        poll.yes_votes = poll.yes_votes - prior_yes + add_yes;
        poll.no_votes = poll.no_votes - prior_no + add_no;
        let new_vi = VoteInfo { vote, weight };
        vm.upsert(voter, new_vi);
        proof {
            if has_key(vm0, voter) {
                let j = crate::store::key_index(vm0, voter);
                crate::store::lemma_key_at(vm0, voter, j);
                lemma_sum_dir_update(vm0, j, (voter, new_vi), VoteOption::Yes);
                lemma_sum_dir_update(vm0, j, (voter, new_vi), VoteOption::No);
            } else {
                let p = choose|p: int| 0 <= p <= vm0.len() && vm@ == vm0.insert(p, (voter, new_vi));
                lemma_sum_dir_insert(vm0, p, (voter, new_vi), VoteOption::Yes);
                lemma_sum_dir_insert(vm0, p, (voter, new_vi), VoteOption::No);
            }
        }
        let ghost vm_new = vm@;
        let ghost vm_g = vm;
        let ghost poll_g = poll;
        self.voters.upsert(poll_id, vm);
        self.polls.upsert(poll_id, poll);
        proof {
            let i = crate::store::key_index(polls0, poll_id);
            crate::store::lemma_key_at(polls0, poll_id, i);
            lemma_sum_deposits_remove(polls0, i);
            let polls1 = polls0.remove(i);
            assert(!has_key(polls1, poll_id));
            let p = choose|p: int| 0 <= p <= polls1.len() && self.polls@ == polls1.insert(p, (poll_id, poll_g));
            lemma_sum_deposits_insert(polls1, p, (poll_id, poll_g));
        }
        // lock the weight in the staker's record
        let ghost bank0 = self.bank@;
        let mut tm = self.bank.remove_key(voter).unwrap();
        proof {
            let i = crate::store::key_index(bank0, voter);
            crate::store::lemma_key_at(bank0, voter, i);
            lemma_sum_shares_remove(bank0, i);
        }
        let ghost lb0 = tm.locked_balance@;
        tm.locked_balance.upsert(poll_id, new_vi);
        proof {
            if has_key(lb0, poll_id) {
                let j = crate::store::key_index(lb0, poll_id);
                crate::store::lemma_key_at(lb0, poll_id, j);
                lemma_sum_weights_update(lb0, j, (poll_id, new_vi));
            } else {
                let p = choose|p: int| 0 <= p <= lb0.len() && tm.locked_balance@ == lb0.insert(p, (poll_id, new_vi));
                lemma_sum_weights_insert(lb0, p, (poll_id, new_vi));
            }
        }
        let ghost tm_new = tm;
        self.bank.upsert(voter, tm);
        proof {
            let bank1 = bank0.remove(crate::store::key_index(bank0, voter));
            assert(!has_key(bank1, voter));
            let p = choose|p: int| 0 <= p <= bank1.len() && self.bank@ == bank1.insert(p, (voter, tm_new));
            lemma_sum_shares_insert(bank1, p, (voter, tm_new));
            assert forall|k: u64| #[trigger] self.tm_ok(k) by {
                assert(old(self).tm_ok(k));
            }
            assert forall|pid: u64| #[trigger] self.voters_ok(pid) by {
                assert(old(self).voters_ok(pid));
            }
            assert forall|id2: u64| #[trigger] self.poll_ok(id2) by {
                assert(old(self).poll_ok(id2));
                if id2 == poll_id {
                    assert(self.voters_of(poll_id) == vm_new);
                } else {
                    assert(self.voters_of(id2) == old(self).voters_of(id2));
                }
            }
            assert forall|v2: u64|
                v2 != voter implies lookup(self.voters_of(poll_id), v2) == lookup(
                old(self).voters_of(poll_id),
                v2,
            ) by {
                assert(self.voters_of(poll_id) == vm_new);
                assert(vm_g.spec_get(v2) == lookup(vm0, v2));
                assert(lookup(vm_new, v2) == lookup(vm0, v2));
            }
        }
        Ok(())
    }

    /// The poll exists, is in progress, and its voting period is over.
    pub open spec fn end_poll_allowed(&self, poll_id: u64, now: u64) -> bool {
        match self.polls.spec_get(poll_id) {
            Some(p) => p.status == PollStatus::InProgress && now >= p.end_height,
            None => false,
        }
    }

    /// Tally a poll whose voting period has ended.  Zero turnout or a
    /// missed quorum rejects it and forfeits the deposit; otherwise the
    /// yes-fraction against the threshold decides, and passing sets the
    /// timelock and refunds the deposit.  Voter weight stays locked
    /// until execution or expiry.
    #[verifier::rlimit(50)]
    pub fn end_poll(&mut self, poll_id: u64, now: u64) -> (r: Result<PollStatus, ContractError>)
        requires
            old(self).inv(),
            old(self).end_poll_allowed(poll_id, now) ==> now + old(self).config.timelock_period
                <= u64::MAX,
        ensures
            final(self).inv(),
            r is Ok <==> old(self).end_poll_allowed(poll_id, now),
            r is Err ==> *final(self) == *old(self),
            match old(self).polls.spec_get(poll_id) {
                None => r == Err::<PollStatus, ContractError>(ContractError::PollNotFound),
                Some(p) => {
                    if p.status != PollStatus::InProgress {
                        r == Err::<PollStatus, ContractError>(ContractError::PollNotInProgress)
                    } else if now < p.end_height {
                        r == Err::<PollStatus, ContractError>(
                            ContractError::PollVotingPeriodNotEnded,
                        )
                    } else {
                        r is Ok
                    }
                },
            },
            r is Ok ==> ({
                match old(self).polls.spec_get(poll_id) {
                    Some(p) => {
                        let passes = poll_passes(p, old(self).config, old(self).state.total_share);
                        &&& r == Ok::<PollStatus, ContractError>(
                            if passes {
                                PollStatus::Passed
                            } else {
                                PollStatus::Rejected
                            },
                        )
                        // zero turnout always rejects, and never divides
                        &&& p.yes_votes + p.no_votes == 0 ==> r == Ok::<
                            PollStatus,
                            ContractError,
                        >(PollStatus::Rejected)
                        &&& match final(self).polls.spec_get(poll_id) {
                            Some(q) => poll_resolved_as(
                                p,
                                q,
                                passes,
                                now + old(self).config.timelock_period,
                            ),
                            None => false,
                        }
                        &&& final(self).state.total_deposit == old(self).state.total_deposit
                            - p.deposit
                        &&& final(self).state.total_share == old(self).state.total_share
                        &&& final(self).state.poll_count == old(self).state.poll_count
                        &&& final(self).config == old(self).config
                        &&& final(self).bank@ == old(self).bank@
                        &&& final(self).voters@ == old(self).voters@
                        &&& forall|id2: u64|
                            id2 != poll_id ==> final(self).polls.spec_get(id2) == old(
                                self,
                            ).polls.spec_get(id2)
                    },
                    None => false,
                }
            }),
    {
        let (yes, no, snap, dep) = match self.polls.get(poll_id) {
            None => {
                return Err(ContractError::PollNotFound);
            },
            Some(p) => {
                if p.status != PollStatus::InProgress {
                    return Err(ContractError::PollNotInProgress);
                }
                if now < p.end_height {
                    return Err(ContractError::PollVotingPeriodNotEnded);
                }
                (p.yes_votes, p.no_votes, p.snapshot, p.deposit)
            },
        };
        let total_u: u128 = (yes as u128) + (no as u128);
        let denom: u64 = match snap {
            Some(s) => s.total_share,
            None => self.state.total_share,
        };
        let quorum_ok = check_ratio_ge(total_u, denom as u128, self.config.quorum);
        let threshold_ok = check_ratio_ge(yes as u128, total_u, self.config.threshold);
        let passes = total_u > 0 && quorum_ok && threshold_ok;
        proof {
            assert(old(self).poll_ok(poll_id));
        }
        let ghost polls0 = self.polls@;
        let mut poll = self.polls.remove_key(poll_id).unwrap();
        poll.status = if passes {
            PollStatus::Passed
        } else {
            PollStatus::Rejected
        };
        if passes {
            poll.timelock_end = now + self.config.timelock_period;
        }
        let ghost poll_g = poll;
        self.polls.upsert(poll_id, poll);
        self.indexer.in_progress.remove_key(poll_id);
        if passes {
            self.indexer.passed.upsert(poll_id, ());
        } else {
            self.indexer.rejected.upsert(poll_id, ());
        }
        proof {
            let i = crate::store::key_index(polls0, poll_id);
            crate::store::lemma_key_at(polls0, poll_id, i);
            lemma_deposit_le_sum(polls0, i);
            lemma_sum_deposits_remove(polls0, i);
            let polls1 = polls0.remove(i);
            assert(!has_key(polls1, poll_id));
            let p = choose|p: int| 0 <= p <= polls1.len() && self.polls@ == polls1.insert(p, (poll_id, poll_g));
            lemma_sum_deposits_insert(polls1, p, (poll_id, poll_g));
        }
        self.state.total_deposit = self.state.total_deposit - dep;
        proof {
            assert forall|k: u64| #[trigger] self.tm_ok(k) by {
                assert(old(self).tm_ok(k));
            }
            assert forall|pid: u64| #[trigger] self.voters_ok(pid) by {
                assert(old(self).voters_ok(pid));
            }
            assert forall|id2: u64| #[trigger] self.poll_ok(id2) by {
                assert(old(self).poll_ok(id2));
                assert(self.voters_of(id2) == old(self).voters_of(id2));
            }
        }
        if passes {
            Ok(PollStatus::Passed)
        } else {
            Ok(PollStatus::Rejected)
        }
    }
}

impl Gov {
    /// The poll exists, has passed, and its timelock has elapsed.
    pub open spec fn execute_allowed(&self, poll_id: u64, now: u64) -> bool {
        match self.polls.spec_get(poll_id) {
            Some(p) => p.status == PollStatus::Passed && now >= p.timelock_end,
            None => false,
        }
    }

    /// The poll exists, has passed, and exceeds the configured maximum
    /// age for a passed-but-unexecuted poll.
    pub open spec fn expire_allowed(&self, poll_id: u64, now: u64) -> bool {
        match self.polls.spec_get(poll_id) {
            Some(p) => p.status == PollStatus::Passed && now > p.end_height
                + self.config.expiration_period,
            None => false,
        }
    }

    /// Remove every recorded voter's lock for `poll_id` from the share
    /// ledger, leaving shares and all other locks untouched.
    fn release_poll_locks(&mut self, poll_id: u64)
        requires
            old(self).inv(),
        ensures
            final(self).inv(),
            final(self).config == old(self).config,
            final(self).state == old(self).state,
            final(self).polls@ == old(self).polls@,
            final(self).voters@ == old(self).voters@,
            final(self).indexer.in_progress@ == old(self).indexer.in_progress@,
            final(self).indexer.passed@ == old(self).indexer.passed@,
            final(self).indexer.rejected@ == old(self).indexer.rejected@,
            final(self).indexer.executed@ == old(self).indexer.executed@,
            final(self).indexer.expired@ == old(self).indexer.expired@,
            forall|k: u64|
                !has_key(old(self).voters_of(poll_id), k) ==> final(self).bank.spec_get(k) == old(
                    self,
                ).bank.spec_get(k),
            forall|k: u64|
                has_key(old(self).voters_of(poll_id), k) ==> lock_released(
                    old(self).bank.spec_get(k),
                    final(self).bank.spec_get(k),
                    poll_id,
                ),
    {
        proof {
            assert(old(self).voters_ok(poll_id));
        }
        let n = match self.voters.get(poll_id) {
            Some(vm) => vm.len(),
            None => 0,
        };
        let ghost vs = old(self).voters_of(poll_id);
        let mut i: usize = 0;
        while i < n
            invariant
                self.inv(),
                self.config == old(self).config,
                self.state == old(self).state,
                self.polls@ == old(self).polls@,
                self.voters@ == old(self).voters@,
                self.indexer.in_progress@ == old(self).indexer.in_progress@,
                self.indexer.passed@ == old(self).indexer.passed@,
                self.indexer.rejected@ == old(self).indexer.rejected@,
                self.indexer.executed@ == old(self).indexer.executed@,
                self.indexer.expired@ == old(self).indexer.expired@,
                i <= n,
                vs == old(self).voters_of(poll_id),
                sorted_keys(vs),
                old(self).voters.spec_contains(poll_id) ==> n == vs.len(),
                !old(self).voters.spec_contains(poll_id) ==> n == 0,
                forall|k: u64|
                    !in_prefix(vs, i as int, k) ==> self.bank.spec_get(k) == old(
                        self,
                    ).bank.spec_get(k),
                forall|k: u64|
                    in_prefix(vs, i as int, k) ==> lock_released(
                        old(self).bank.spec_get(k),
                        self.bank.spec_get(k),
                        poll_id,
                    ),
            decreases n - i,
        {
            let ghost pre = *self;
            let vk = match self.voters.get(poll_id) {
                Some(vm) => vm.key_at(i),
                None => {
                    proof {
                        assert(false);
                    }
                    0
                },
            };
            proof {
                assert(vk == vs[i as int].0);
                assert(!in_prefix(vs, i as int, vk)) by {
                    if in_prefix(vs, i as int, vk) {
                        let j = choose|j: int| 0 <= j < i && (#[trigger] vs[j].0) == vk;
                        assert(vs[j].0 < vs[i as int].0);
                    }
                }
                assert(pre.tm_ok(vk));
            }
            let ghost bank_pre = self.bank@;
            match self.bank.remove_key(vk) {
                Some(tm_in) => {
                    let mut tm = tm_in;
                    proof {
                        let bi = crate::store::key_index(bank_pre, vk);
                        crate::store::lemma_key_at(bank_pre, vk, bi);
                        lemma_sum_shares_remove(bank_pre, bi);
                    }
                    let ghost lb0 = tm.locked_balance@;
                    tm.locked_balance.remove_key(poll_id);
                    proof {
                        if has_key(lb0, poll_id) {
                            let j = crate::store::key_index(lb0, poll_id);
                            crate::store::lemma_key_at(lb0, poll_id, j);
                            lemma_sum_weights_remove(lb0, j);
                        }
                    }
                    let ghost tm_new = tm;
                    self.bank.upsert(vk, tm);
                    proof {
                        let bank1 = bank_pre.remove(crate::store::key_index(bank_pre, vk));
                        assert(!has_key(bank1, vk));
                        let p = choose|p: int| 0 <= p <= bank1.len() && self.bank@ == bank1.insert(p, (vk, tm_new));
                        lemma_sum_shares_insert(bank1, p, (vk, tm_new));
                    }
                },
                None => {},
            }
            proof {
                assert forall|k: u64| #[trigger] self.tm_ok(k) by {
                    assert(pre.tm_ok(k));
                }
                assert forall|id2: u64| #[trigger] self.poll_ok(id2) by {
                    assert(pre.poll_ok(id2));
                    assert(self.voters_of(id2) == pre.voters_of(id2));
                }
                assert forall|id2: u64| #[trigger] self.voters_ok(id2) by {
                    assert(pre.voters_ok(id2));
                }
                assert forall|k: u64|
                    !in_prefix(vs, i as int + 1, k) implies self.bank.spec_get(k) == old(
                    self,
                ).bank.spec_get(k) by {
                    assert(!in_prefix(vs, i as int, k));
                    assert(k != vk) by {
                        if k == vk {
                            assert(vs[i as int].0 == k);
                            assert(in_prefix(vs, i as int + 1, k));
                        }
                    }
                }
                assert forall|k: u64|
                    in_prefix(vs, i as int + 1, k) implies lock_released(
                    old(self).bank.spec_get(k),
                    self.bank.spec_get(k),
                    poll_id,
                ) by {
                    if k != vk {
                        assert(in_prefix(vs, i as int, k)) by {
                            let j = choose|j: int| 0 <= j < i as int + 1 && (#[trigger] vs[j].0) == k;
                            assert(j != i as int);
                            assert(0 <= j < i as int && vs[j].0 == k);
                        }
                    }
                }
            }
            i += 1;
        }
        proof {
            assert forall|k: u64|
                has_key(vs, k) implies in_prefix(vs, n as int, k) by {
                let j = choose|j: int| 0 <= j < vs.len() && (#[trigger] vs[j].0) == k;
                if !old(self).voters.spec_contains(poll_id) {
                    assert(vs =~= Seq::<(u64, VoteInfo)>::empty());
                }
                assert(0 <= j < n as int && vs[j].0 == k);
            }
            assert forall|k: u64|
                !has_key(vs, k) implies self.bank.spec_get(k) == old(self).bank.spec_get(k) by {
                assert(!in_prefix(vs, n as int, k)) by {
                    if in_prefix(vs, n as int, k) {
                        let j = choose|j: int| 0 <= j < n as int && (#[trigger] vs[j].0) == k;
                        if !old(self).voters.spec_contains(poll_id) {
                            assert(vs =~= Seq::<(u64, VoteInfo)>::empty());
                        }
                        assert(0 <= j < vs.len() && vs[j].0 == k);
                    }
                }
            }
        }
    }

    /// Execute a passed poll once its timelock has elapsed: mark it
    /// `Executed`, re-key its index entry, and release every voter's
    /// locked weight.  Dispatching the escrowed payload belongs to the
    /// caller; the engine neither performs nor rolls it back.
    pub fn execute_poll(&mut self, poll_id: u64, now: u64) -> (r: Result<(), ContractError>)
        requires
            old(self).inv(),
        ensures
            final(self).inv(),
            r is Ok <==> old(self).execute_allowed(poll_id, now),
            r is Err ==> *final(self) == *old(self),
            match old(self).polls.spec_get(poll_id) {
                None => r == Err::<(), ContractError>(ContractError::PollNotFound),
                Some(p) => {
                    if p.status != PollStatus::Passed {
                        r == Err::<(), ContractError>(ContractError::PollNotPassed)
                    } else if now < p.timelock_end {
                        r == Err::<(), ContractError>(ContractError::TimelockNotElapsed)
                    } else {
                        r is Ok
                    }
                },
            },
            r is Ok ==> ({
                &&& final(self).config == old(self).config
                &&& final(self).state == old(self).state
                &&& final(self).voters@ == old(self).voters@
                &&& match (old(self).polls.spec_get(poll_id), final(self).polls.spec_get(
                    poll_id,
                )) {
                    (Some(p), Some(q)) => poll_with_status(p, q, PollStatus::Executed),
                    _ => false,
                }
                &&& forall|id2: u64|
                    id2 != poll_id ==> final(self).polls.spec_get(id2) == old(self).polls.spec_get(
                        id2,
                    )
                &&& forall|k: u64|
                    !has_key(old(self).voters_of(poll_id), k) ==> final(self).bank.spec_get(k)
                        == old(self).bank.spec_get(k)
                &&& forall|k: u64|
                    has_key(old(self).voters_of(poll_id), k) ==> lock_released(
                        old(self).bank.spec_get(k),
                        final(self).bank.spec_get(k),
                        poll_id,
                    )
            }),
    {
        match self.polls.get(poll_id) {
            None => {
                return Err(ContractError::PollNotFound);
            },
            Some(p) => {
                if p.status != PollStatus::Passed {
                    return Err(ContractError::PollNotPassed);
                }
                if now < p.timelock_end {
                    return Err(ContractError::TimelockNotElapsed);
                }
            },
        }
        proof {
            assert(old(self).poll_ok(poll_id));
        }
        let ghost polls0 = self.polls@;
        let mut poll = self.polls.remove_key(poll_id).unwrap();
        poll.status = PollStatus::Executed;
        let ghost poll_g = poll;
        self.polls.upsert(poll_id, poll);
        self.indexer.passed.remove_key(poll_id);
        self.indexer.executed.upsert(poll_id, ());
        proof {
            let i = crate::store::key_index(polls0, poll_id);
            crate::store::lemma_key_at(polls0, poll_id, i);
            lemma_sum_deposits_remove(polls0, i);
            let polls1 = polls0.remove(i);
            assert(!has_key(polls1, poll_id));
            let p = choose|p: int| 0 <= p <= polls1.len() && self.polls@ == polls1.insert(p, (poll_id, poll_g));
            lemma_sum_deposits_insert(polls1, p, (poll_id, poll_g));
            assert forall|k: u64| #[trigger] self.tm_ok(k) by {
                assert(old(self).tm_ok(k));
            }
            assert forall|pid: u64| #[trigger] self.voters_ok(pid) by {
                assert(old(self).voters_ok(pid));
            }
            assert forall|id2: u64| #[trigger] self.poll_ok(id2) by {
                assert(old(self).poll_ok(id2));
                assert(self.voters_of(id2) == old(self).voters_of(id2));
            }
        }
        self.release_poll_locks(poll_id);
        Ok(())
    }

    /// Expire a passed poll that exceeded its maximum age without being
    /// executed: mark it `Expired`, re-key its index entry, and release
    /// every voter's locked weight, so unexecuted polls do not lock
    /// voter capital forever.
    pub fn expire_poll(&mut self, poll_id: u64, now: u64) -> (r: Result<(), ContractError>)
        requires
            old(self).inv(),
        ensures
            final(self).inv(),
            r is Ok <==> old(self).expire_allowed(poll_id, now),
            r is Err ==> *final(self) == *old(self),
            match old(self).polls.spec_get(poll_id) {
                None => r == Err::<(), ContractError>(ContractError::PollNotFound),
                Some(p) => {
                    if p.status != PollStatus::Passed {
                        r == Err::<(), ContractError>(ContractError::PollNotPassed)
                    } else if now <= p.end_height + old(self).config.expiration_period {
                        r == Err::<(), ContractError>(ContractError::PollNotExpired)
                    } else {
                        r is Ok
                    }
                },
            },
            r is Ok ==> ({
                &&& final(self).config == old(self).config
                &&& final(self).state == old(self).state
                &&& final(self).voters@ == old(self).voters@
                &&& match (old(self).polls.spec_get(poll_id), final(self).polls.spec_get(
                    poll_id,
                )) {
                    (Some(p), Some(q)) => poll_with_status(p, q, PollStatus::Expired),
                    _ => false,
                }
                &&& forall|id2: u64|
                    id2 != poll_id ==> final(self).polls.spec_get(id2) == old(self).polls.spec_get(
                        id2,
                    )
                &&& forall|k: u64|
                    !has_key(old(self).voters_of(poll_id), k) ==> final(self).bank.spec_get(k)
                        == old(self).bank.spec_get(k)
                &&& forall|k: u64|
                    has_key(old(self).voters_of(poll_id), k) ==> lock_released(
                        old(self).bank.spec_get(k),
                        final(self).bank.spec_get(k),
                        poll_id,
                    )
            }),
    {
        match self.polls.get(poll_id) {
            None => {
                return Err(ContractError::PollNotFound);
            },
            Some(p) => {
                if p.status != PollStatus::Passed {
                    return Err(ContractError::PollNotPassed);
                }
                if (now as u128) <= (p.end_height as u128) + (
                self.config.expiration_period as u128) {
                    return Err(ContractError::PollNotExpired);
                }
            },
        }
        proof {
            assert(old(self).poll_ok(poll_id));
        }
        let ghost polls0 = self.polls@;
        let mut poll = self.polls.remove_key(poll_id).unwrap();
        poll.status = PollStatus::Expired;
        let ghost poll_g = poll;
        self.polls.upsert(poll_id, poll);
        self.indexer.passed.remove_key(poll_id);
        self.indexer.expired.upsert(poll_id, ());
        proof {
            let i = crate::store::key_index(polls0, poll_id);
            crate::store::lemma_key_at(polls0, poll_id, i);
            lemma_sum_deposits_remove(polls0, i);
            let polls1 = polls0.remove(i);
            assert(!has_key(polls1, poll_id));
            let p = choose|p: int| 0 <= p <= polls1.len() && self.polls@ == polls1.insert(p, (poll_id, poll_g));
            lemma_sum_deposits_insert(polls1, p, (poll_id, poll_g));
            assert forall|k: u64| #[trigger] self.tm_ok(k) by {
                assert(old(self).tm_ok(k));
            }
            assert forall|pid: u64| #[trigger] self.voters_ok(pid) by {
                assert(old(self).voters_ok(pid));
            }
            assert forall|id2: u64| #[trigger] self.poll_ok(id2) by {
                assert(old(self).poll_ok(id2));
                assert(self.voters_of(id2) == old(self).voters_of(id2));
            }
        }
        self.release_poll_locks(poll_id);
        Ok(())
    }

    /// The key sequence a poll listing scans: one status partition of
    /// the index, or the whole poll book when no filter is given.
    pub open spec fn listed_keys(&self, filter: Option<PollStatus>) -> Seq<u64> {
        match filter {
            None => key_seq(self.polls@),
            Some(PollStatus::InProgress) => key_seq(self.indexer.in_progress@),
            Some(PollStatus::Passed) => key_seq(self.indexer.passed@),
            Some(PollStatus::Rejected) => key_seq(self.indexer.rejected@),
            Some(PollStatus::Executed) => key_seq(self.indexer.executed@),
            Some(PollStatus::Expired) => key_seq(self.indexer.expired@),
        }
    }

    /// Enumerate poll ids, optionally restricted to one status, as one
    /// page: ascending scans return ids strictly after `start_after` in
    /// increasing order, descending scans ids strictly before it in
    /// decreasing order; with no order given the scan descends.
    pub fn list_polls(
        &self,
        filter: Option<PollStatus>,
        start_after: Option<u64>,
        limit: Option<u32>,
        order_by: Option<OrderBy>,
    ) -> (ids: Vec<u64>)
        requires
            self.inv(),
        ensures
            ids@.len() <= spec_limit(limit),
            wants_asc(order_by) ==> page_asc(
                self.listed_keys(filter),
                start_after,
                spec_limit(limit),
                ids@,
            ),
            !wants_asc(order_by) ==> page_desc(
                self.listed_keys(filter),
                start_after,
                spec_limit(limit),
                ids@,
            ),
            wants_asc(order_by) ==> forall|a: int, b: int|
                0 <= a < b < ids@.len() ==> ids@[a] < ids@[b],
            !wants_asc(order_by) ==> forall|a: int, b: int|
                0 <= a < b < ids@.len() ==> ids@[a] > ids@[b],
            wants_asc(order_by) ==> forall|x: int|
                0 <= x < ids@.len() ==> above(#[trigger] ids@[x], start_after),
            !wants_asc(order_by) ==> forall|x: int|
                0 <= x < ids@.len() ==> below(#[trigger] ids@[x], start_after),
            forall|x: int|
                0 <= x < ids@.len() ==> (match filter {
                    Some(st) => self.poll_status_is(#[trigger] ids@[x], st),
                    None => self.polls.spec_contains(ids@[x]),
                }),
    {
        let lim = clamp_limit(limit);
        let asc = match order_by {
            Some(OrderBy::Asc) => true,
            _ => false,
        };
        let ids = match filter {
            None => {
                let v = if asc {
                    self.polls.range_keys_asc(start_after, lim)
                } else {
                    self.polls.range_keys_desc(start_after, lim)
                };
                proof {
                    if asc {
                        lemma_range_to_page_asc(self.polls@, start_after, lim as int, v@);
                    } else {
                        lemma_range_to_page_desc(self.polls@, start_after, lim as int, v@);
                    }
                }
                v
            },
            Some(PollStatus::InProgress) => {
                let v = if asc {
                    self.indexer.in_progress.range_keys_asc(start_after, lim)
                } else {
                    self.indexer.in_progress.range_keys_desc(start_after, lim)
                };
                proof {
                    if asc {
                        lemma_range_to_page_asc(self.indexer.in_progress@, start_after, lim as int, v@);
                    } else {
                        lemma_range_to_page_desc(self.indexer.in_progress@, start_after, lim as int, v@);
                    }
                }
                v
            },
            Some(PollStatus::Passed) => {
                let v = if asc {
                    self.indexer.passed.range_keys_asc(start_after, lim)
                } else {
                    self.indexer.passed.range_keys_desc(start_after, lim)
                };
                proof {
                    if asc {
                        lemma_range_to_page_asc(self.indexer.passed@, start_after, lim as int, v@);
                    } else {
                        lemma_range_to_page_desc(self.indexer.passed@, start_after, lim as int, v@);
                    }
                }
                v
            },
            Some(PollStatus::Rejected) => {
                let v = if asc {
                    self.indexer.rejected.range_keys_asc(start_after, lim)
                } else {
                    self.indexer.rejected.range_keys_desc(start_after, lim)
                };
                proof {
                    if asc {
                        lemma_range_to_page_asc(self.indexer.rejected@, start_after, lim as int, v@);
                    } else {
                        lemma_range_to_page_desc(self.indexer.rejected@, start_after, lim as int, v@);
                    }
                }
                v
            },
            Some(PollStatus::Executed) => {
                let v = if asc {
                    self.indexer.executed.range_keys_asc(start_after, lim)
                } else {
                    self.indexer.executed.range_keys_desc(start_after, lim)
                };
                proof {
                    if asc {
                        lemma_range_to_page_asc(self.indexer.executed@, start_after, lim as int, v@);
                    } else {
                        lemma_range_to_page_desc(self.indexer.executed@, start_after, lim as int, v@);
                    }
                }
                v
            },
            Some(PollStatus::Expired) => {
                let v = if asc {
                    self.indexer.expired.range_keys_asc(start_after, lim)
                } else {
                    self.indexer.expired.range_keys_desc(start_after, lim)
                };
                proof {
                    if asc {
                        lemma_range_to_page_asc(self.indexer.expired@, start_after, lim as int, v@);
                    } else {
                        lemma_range_to_page_desc(self.indexer.expired@, start_after, lim as int, v@);
                    }
                }
                v
            },
        };
        proof {
            assert forall|x: int| 0 <= x < ids@.len() implies (match filter {
                Some(st) => self.poll_status_is(#[trigger] ids@[x], st),
                None => self.polls.spec_contains(ids@[x]),
            }) by {
                assert(self.poll_ok(ids@[x]));
            }
        }
        ids
    }

    /// Enumerate the recorded votes of one poll as one page, keyed and
    /// ordered by voter: ascending scans start strictly after the
    /// cursor, descending scans end strictly before it; with no order
    /// given the scan descends.  A poll with no recorded votes yields
    /// an empty page.
    pub fn read_poll_voters(
        &self,
        poll_id: u64,
        start_after: Option<u64>,
        limit: Option<u32>,
        order_by: Option<OrderBy>,
    ) -> (r: Vec<(u64, VoteInfo)>)
        requires
            self.inv(),
        ensures
            r@.len() <= spec_limit(limit),
            wants_asc(order_by) ==> page_asc(
                key_seq(self.voters_of(poll_id)),
                start_after,
                spec_limit(limit),
                key_seq(r@),
            ),
            !wants_asc(order_by) ==> page_desc(
                key_seq(self.voters_of(poll_id)),
                start_after,
                spec_limit(limit),
                key_seq(r@),
            ),
            forall|x: int|
                0 <= x < r@.len() ==> lookup(self.voters_of(poll_id), (#[trigger] r@[x]).0)
                    == Some(r@[x].1),
            wants_asc(order_by) ==> forall|a: int, b: int|
                0 <= a < b < r@.len() ==> r@[a].0 < r@[b].0,
            !wants_asc(order_by) ==> forall|a: int, b: int|
                0 <= a < b < r@.len() ==> r@[a].0 > r@[b].0,
    {
        let lim = clamp_limit(limit);
        let asc = match order_by {
            Some(OrderBy::Asc) => true,
            _ => false,
        };
        match self.voters.get(poll_id) {
            None => {
                let v: Vec<(u64, VoteInfo)> = Vec::new();
                proof {
                    assert(self.voters_of(poll_id) =~= Seq::<(u64, VoteInfo)>::empty());
                    assert(key_seq(v@) =~= Seq::<u64>::empty());
                    let keys = key_seq(self.voters_of(poll_id));
                    assert(keys.len() == 0);
                    if asc {
                        assert(page_asc_at(keys, start_after, lim as int, key_seq(v@), 0));
                    } else {
                        assert(page_desc_at(keys, start_after, lim as int, key_seq(v@), 0));
                    }
                }
                v
            },
            Some(vm) => {
                proof {
                    assert(self.voters_ok(poll_id));
                    assert(vm@ == self.voters_of(poll_id));
                }
                let v = if asc {
                    vm.range_entries_asc(start_after, lim)
                } else {
                    vm.range_entries_desc(start_after, lim)
                };
                proof {
                    if asc {
                        lemma_range_to_page_asc(vm@, start_after, lim as int, key_seq(v@));
                    } else {
                        lemma_range_to_page_desc(vm@, start_after, lim as int, key_seq(v@));
                    }
                }
                v
            },
        }
    }
}

/// The query asked for an ascending scan; anything else descends.
pub open spec fn wants_asc(order_by: Option<OrderBy>) -> bool {
    match order_by {
        Some(OrderBy::Asc) => true,
        _ => false,
    }
}

} // verus!
