use crate::math::Decimal;
use vstd::prelude::*;

verus! {

/// Message embedded in a pool-token receive callback.
#[derive(Clone, Copy, Debug, PartialEq, Eq, Structural)]
pub enum Cw20HookMsg {
    Bond {},
}

/// Direction of a paginated staker listing.
#[derive(Clone, Copy, Debug, PartialEq, Eq, Structural)]
pub enum OrderBy {
    Asc,
    Desc,
}

/// Read-only questions the contract answers.
#[derive(Clone, Debug, PartialEq, Eq)]
pub enum QueryMsg {
    Config {},
    State {},
    StakerInfo { staker: String },
    StakersInfo { start_after: Option<String>, limit: Option<u32>, order_by: Option<OrderBy> },
}

/// Carried by a migration; holds nothing.
#[derive(Clone, Copy, Debug, PartialEq, Eq, Structural)]
pub struct MigrateMsg {}

/// The configuration, with token identities as canonical key bytes.
#[derive(Clone, Debug, PartialEq, Eq)]
pub struct ConfigResponse {
    pub miaw_token: Vec<u8>,
    pub miaw_lp_token: Vec<u8>,
    pub distribution_schedule: Vec<(u64, u64, u128)>,
}

/// The global accounting state.
#[derive(Clone, Copy, Debug, PartialEq, Eq, Structural)]
pub struct StateResponse {
    pub last_distributed: u64,
    pub total_bond_amount: u128,
    pub global_reward_index: Decimal,
}

/// One staker's position, with rewards settled up to the query time.
#[derive(Clone, Debug, PartialEq, Eq)]
pub struct StakerInfoResponse {
    pub staker: Vec<u8>,
    pub reward_index: Decimal,
    pub bond_amount: u128,
    pub pending_reward: u128,
}

/// A page of staker positions.
#[derive(Clone, Debug, PartialEq, Eq)]
pub struct StakersInfoResponse {
    pub stakers: Vec<StakerInfoResponse>,
}

} // verus!
