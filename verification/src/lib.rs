//! Accounting core of a token-staking reward program.
//!
//! Stakers lock a pool token; rewards accrue continuously according to a
//! piecewise-linear distribution schedule and are settled into per-staker
//! pending balances. The arithmetic mirrors the 256-bit fixed-point
//! behaviour of `cosmwasm_bignumber`, including its truncation order.

pub mod contract;
pub mod error;
pub mod handle;
pub mod keys;
pub mod math;
pub mod mock_querier;
pub mod msg;
pub mod query;
pub mod state;

pub use crate::error::ContractError;
