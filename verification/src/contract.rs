use crate::error::ContractError;
use crate::handle::{
    accrual_ok, accrued, bond, bonded, conserves, info_or_default, settle_ok, settled,
    state_bonded,
};
use crate::keys::{key_cmp, KeyOrd};
use crate::math::Decimal;
use crate::msg::Cw20HookMsg;
use crate::state::{lookup, schedule_wf, Config, StakerInfo, Stakers, State};
use vstd::prelude::*;

verus! {

/// Validates the configuration and creates the genesis state: checkpoint at
/// `genesis_time`, nothing bonded, index zero. A schedule entry over an
/// empty interval is a fatal configuration error.
pub fn instantiate(
    miaw_token: Vec<u8>,
    miaw_lp_token: Vec<u8>,
    distribution_schedule: Vec<(u64, u64, u128)>,
    genesis_time: u64,
) -> (r: Result<(Config, State), ContractError>)
    ensures
        schedule_wf(distribution_schedule@) ==> r == Ok::<(Config, State), ContractError>(
            (
                Config { miaw_token, miaw_lp_token, distribution_schedule },
                State {
                    last_distributed: genesis_time,
                    total_bond_amount: 0,
                    global_reward_index: Decimal { atomics: 0 },
                },
            ),
        ),
        !schedule_wf(distribution_schedule@) ==> r == Err::<(Config, State), ContractError>(
            ContractError::InvalidSchedule {},
        ),
{
    let n = distribution_schedule.len();
    let mut i: usize = 0;
    while i < n
        invariant
            i <= n,
            n == distribution_schedule@.len(),
            forall|j: int|
                0 <= j < i ==> (#[trigger] distribution_schedule@[j]).1
                    > distribution_schedule@[j].0,
        decreases n - i,
    {
        let e = distribution_schedule[i];
        if e.1 <= e.0 {
            return Err(ContractError::InvalidSchedule {});
        }
        i = i + 1;
    }
    let config = Config { miaw_token, miaw_lp_token, distribution_schedule };
    let state = State {
        last_distributed: genesis_time,
        total_bond_amount: 0,
        global_reward_index: Decimal { atomics: 0 },
    };
    Ok((config, state))
}

/// Handles a pool-token receive callback: only the configured pool token may
/// bond on behalf of the resolved beneficiary; an unreadable embedded
/// message is rejected.
pub fn receive_cw20(
    config: &Config,
    state: &mut State,
    stakers: &mut Stakers,
    info_sender: &Vec<u8>,
    cw20_sender: &Vec<u8>,
    amount: u128,
    hook_msg: Option<Cw20HookMsg>,
    now: u64,
) -> (r: Result<(), ContractError>)
    requires
        old(stakers).wf(),
        conserves(*old(state), old(stakers)@),
        schedule_wf(config.distribution_schedule@),
        info_sender@ == config.miaw_lp_token@ && hook_msg is Some ==> accrual_ok(
            config.distribution_schedule@,
            *old(state),
            now,
        ) && settle_ok(
            accrued(config.distribution_schedule@, *old(state), now),
            info_or_default(old(stakers)@, cw20_sender@),
        ) && old(state).total_bond_amount + amount <= u128::MAX,
    ensures
        final(stakers).wf(),
        conserves(*final(state), final(stakers)@),
        ({
            if info_sender@ != config.miaw_lp_token@ {
                &&& r == Err::<(), ContractError>(ContractError::Unauthorized {})
                &&& *final(state) == *old(state)
                &&& final(stakers)@ == old(stakers)@
            } else {
                match hook_msg {
                    Option::Some(m) => {
                        let acc = accrued(config.distribution_schedule@, *old(state), now);
                        let set = settled(acc, info_or_default(old(stakers)@, cw20_sender@));
                        &&& r == Ok::<(), ContractError>(())
                        &&& *final(state) == state_bonded(acc, amount)
                        &&& lookup(final(stakers)@, cw20_sender@) == Some(bonded(set, amount))
                        &&& forall|q: Seq<u8>|
                            q != cw20_sender@ ==> lookup(final(stakers)@, q) == lookup(
                                old(stakers)@,
                                q,
                            )
                    },
                    Option::None => {
                        &&& r == Err::<(), ContractError>(ContractError::InvalidCw20Msg {})
                        &&& *final(state) == *old(state)
                        &&& final(stakers)@ == old(stakers)@
                    },
                }
            }
        }),
{
    let sender_check = key_cmp(info_sender, &config.miaw_lp_token);
    match sender_check {
        KeyOrd::Equal => {},
        _ => {
            return Err(ContractError::Unauthorized {});
        },
    }
    match hook_msg {
        Some(Cw20HookMsg::Bond {}) => bond(config, state, stakers, cw20_sender, amount, now),
        None => Err(ContractError::InvalidCw20Msg {}),
    }
}

} // verus!
