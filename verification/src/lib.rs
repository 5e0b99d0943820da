//! Poll governance and vote-weight accounting for a staked-asset exchange.
//!
//! Holders stake a fungible token for voting weight, raise and vote on
//! polls with quorum/threshold/timelock rules, and enumerate polls and
//! voters through paginated, ordered queries.  The engine keeps strict
//! monetary-safety invariants: the aggregate staked share equals the sum
//! of every staker's share, and no staker's locked vote weight ever
//! exceeds their share.

pub mod error;
pub mod gov;
pub mod msg;
pub mod state;
pub mod store;
