use crate::error::ContractError;
use crate::handle::{
    accrual_ok, accrued, all_settle_ok, compute_reward, compute_staker_reward, info_or_default,
    settle_ok,
};
use crate::msg::{ConfigResponse, OrderBy, StakerInfoResponse, StakersInfoResponse, StateResponse};
use crate::state::{
    lookup, page_spec, read_stakers_with_updated_reward, res_matches, schedule_wf, Config,
    Stakers, State,
};
use vstd::prelude::*;

verus! {

/// Reports the configuration.
pub fn query_config(config: &Config) -> (r: ConfigResponse)
    ensures
        r.miaw_token@ == config.miaw_token@,
        r.miaw_lp_token@ == config.miaw_lp_token@,
        r.distribution_schedule@ == config.distribution_schedule@,
{
    config.as_res()
}

/// Reports the global state as stored, without accruing.
pub fn query_state(state: &State) -> (r: StateResponse)
    ensures
        r == (StateResponse {
            last_distributed: state.last_distributed,
            total_bond_amount: state.total_bond_amount,
            global_reward_index: state.global_reward_index,
        }),
{
    state.as_res()
}

/// Reports one staker's position with rewards settled up to `now`, on
/// throwaway copies: nothing is persisted by a query.
pub fn query_staker_info(
    config: &Config,
    state: &State,
    stakers: &Stakers,
    staker: &Vec<u8>,
    now: u64,
) -> (r: Result<StakerInfoResponse, ContractError>)
    requires
        stakers.wf(),
        schedule_wf(config.distribution_schedule@),
        accrual_ok(config.distribution_schedule@, *state, now),
        settle_ok(
            accrued(config.distribution_schedule@, *state, now),
            info_or_default(stakers@, staker@),
        ),
    ensures
        ({
            let acc = accrued(config.distribution_schedule@, *state, now);
            match lookup(stakers@, staker@) {
                Option::None => r == Err::<StakerInfoResponse, ContractError>(
                    ContractError::StakerNotFound {},
                ),
                Option::Some(prev) => r matches Ok(res) && res_matches(acc, staker@, prev, res),
            }
        }),
{
    let mut st = *state;
    compute_reward(config, &mut st, now);
    let mut staker_info = match stakers.get(staker) {
        Some(i) => i,
        None => {
            return Err(ContractError::StakerNotFound {});
        },
    };
    compute_staker_reward(&st, &mut staker_info);
    Ok(staker_info.as_res(staker))
}

/// Lists stakers with rewards settled up to `now`, in key order, bounded by
/// the pagination parameters, on throwaway copies: nothing is persisted.
pub fn query_stakers_info(
    config: &Config,
    state: &State,
    stakers: &Stakers,
    start_after: Option<Vec<u8>>,
    limit: Option<u32>,
    order_by: Option<OrderBy>,
    now: u64,
) -> (r: StakersInfoResponse)
    requires
        stakers.wf(),
        schedule_wf(config.distribution_schedule@),
        accrual_ok(config.distribution_schedule@, *state, now),
        all_settle_ok(accrued(config.distribution_schedule@, *state, now), stakers@),
    ensures
        page_spec(
            stakers@,
            accrued(config.distribution_schedule@, *state, now),
            start_after,
            limit,
            order_by,
            r,
        ),
{
    let mut st = *state;
    compute_reward(config, &mut st, now);
    read_stakers_with_updated_reward(stakers, &st, start_after, limit, order_by)
}

} // verus!
