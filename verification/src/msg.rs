//! Message types accepted at the boundary.  Wire decoding happens
//! outside the engine; these are the already-decoded forms.

use crate::state::{Decimal, PollStatus};
use crate::store::OrderBy;
use vstd::prelude::*;

verus! {

/// Parameters supplied at instantiation.
#[derive(Debug, Clone)]
pub struct InstantiateMsg {
    pub cw20_token: String,
    pub quorum: Decimal,
    pub threshold: Decimal,
    pub voting_period: u64,
    pub timelock_period: u64,
    pub expiration_period: u64,
    pub proposal_deposit: u64,
    pub snapshot_period: u64,
}

/// Read-only queries, paginated where they enumerate.
#[derive(Debug, Clone)]
pub enum QueryMsg {
    Config {},
    State {},
    Balance {},
    Staker { address: String },
    Poll { poll_id: u64 },
    Polls {
        filter: Option<PollStatus>,
        start_after: Option<u64>,
        limit: Option<u32>,
        order_by: Option<OrderBy>,
    },
    Voters {
        poll_id: u64,
        start_after: Option<String>,
        limit: Option<u32>,
        order_by: Option<OrderBy>,
    },
}

/// Hook payload carried inside an incoming token transfer notification.
#[derive(Debug, Clone, PartialEq, Eq, Structural)]
pub enum Cw20HookMsg {
    UnbondBluna {},
}

/// Commands dispatched to the derivative-token contract.
#[derive(Debug, Clone, PartialEq, Eq, Structural)]
pub enum BlunaExecuteMsg {
    Unbond {},
    WithdrawUnbonded {},
}

} // verus!
