use cosmwasm_std::testing::mock_env;
use lp_staking::contract::{instantiate, receive_cw20};
use lp_staking::handle::{bond_hook, unbond};
use lp_staking::math::Decimal;
use lp_staking::msg::{
    ConfigResponse, Cw20HookMsg, OrderBy, StakerInfoResponse, StakersInfoResponse, StateResponse,
};
use lp_staking::query::{query_config, query_staker_info, query_stakers_info, query_state};
use lp_staking::state::Stakers;
use lp_staking::ContractError;

fn genesis_seconds() -> u64 {
    mock_env().block.time.seconds()
}

#[test]
fn proper_initialization() {
    let default_genesis_seconds = genesis_seconds();

    let (config, state) = instantiate(
        b"miaw0000".to_vec(),
        b"miawlp0000".to_vec(),
        vec![(100, 200, 1000000u128)],
        default_genesis_seconds,
    )
    .unwrap();

    assert_eq!(
        query_config(&config),
        ConfigResponse {
            miaw_token: b"miaw0000".to_vec(),
            miaw_lp_token: b"miawlp0000".to_vec(),
            distribution_schedule: vec![(100, 200, 1000000u128)],
        }
    );

    assert_eq!(
        query_state(&state),
        StateResponse {
            last_distributed: default_genesis_seconds,
            total_bond_amount: 0,
            global_reward_index: Decimal::zero(),
        }
    );
}

#[test]
fn test_bond_tokens() {
    let g = genesis_seconds();

    let (config, mut state) = instantiate(
        b"miaw0000".to_vec(),
        b"miawlp0000".to_vec(),
        vec![(g, g + 100, 1000000u128), (g + 100, g + 200, 10000000u128)],
        g,
    )
    .unwrap();
    let mut stakers = Stakers::new();

    receive_cw20(
        &config,
        &mut state,
        &mut stakers,
        &b"miawlp0000".to_vec(),
        &b"addr0000".to_vec(),
        100,
        Some(Cw20HookMsg::Bond {}),
        g,
    )
    .unwrap();

    assert_eq!(
        query_staker_info(&config, &state, &stakers, &b"addr0000".to_vec(), g).unwrap(),
        StakerInfoResponse {
            staker: b"addr0000".to_vec(),
            reward_index: Decimal::zero(),
            pending_reward: 0,
            bond_amount: 100,
        }
    );

    assert_eq!(
        query_state(&state),
        StateResponse {
            total_bond_amount: 100,
            global_reward_index: Decimal::zero(),
            last_distributed: g,
        }
    );

    // bond 100 more tokens, 10 seconds later
    receive_cw20(
        &config,
        &mut state,
        &mut stakers,
        &b"miawlp0000".to_vec(),
        &b"addr0000".to_vec(),
        100,
        Some(Cw20HookMsg::Bond {}),
        g + 10,
    )
    .unwrap();

    assert_eq!(
        query_staker_info(&config, &state, &stakers, &b"addr0000".to_vec(), g + 10).unwrap(),
        StakerInfoResponse {
            staker: b"addr0000".to_vec(),
            reward_index: Decimal::from_ratio(1000, 1),
            pending_reward: 100000,
            bond_amount: 200,
        }
    );

    assert_eq!(
        query_state(&state),
        StateResponse {
            total_bond_amount: 200,
            global_reward_index: Decimal::from_ratio(1000, 1),
            last_distributed: g + 10,
        }
    );

    // failed with unauthorized
    let err = receive_cw20(
        &config,
        &mut state,
        &mut stakers,
        &b"staking0001".to_vec(),
        &b"addr0000".to_vec(),
        100,
        Some(Cw20HookMsg::Bond {}),
        g,
    )
    .unwrap_err();
    assert_eq!(err, ContractError::Unauthorized {});
}

#[test]
fn test_unbond() {
    let g = genesis_seconds();

    let (config, mut state) = instantiate(
        b"miaw0000".to_vec(),
        b"miawlp0000".to_vec(),
        vec![(g, g + 100, 1000000u128), (g + 100, g + 200, 10000000u128)],
        g,
    )
    .unwrap();
    let mut stakers = Stakers::new();

    // bond 100 tokens
    receive_cw20(
        &config,
        &mut state,
        &mut stakers,
        &b"miawlp0000".to_vec(),
        &b"addr0000".to_vec(),
        100,
        Some(Cw20HookMsg::Bond {}),
        g,
    )
    .unwrap();

    // unbond 150 tokens; failed
    let err = unbond(&config, &mut state, &mut stakers, &b"addr0000".to_vec(), Some(150), g)
        .unwrap_err();
    assert_eq!(err, ContractError::InvalidUnbondAmount {});

    // normal unbond: the pool token owes the staker the unbonded 60
    let transferred =
        unbond(&config, &mut state, &mut stakers, &b"addr0000".to_vec(), Some(60), g).unwrap();
    assert_eq!(transferred, 60);

    // unbond remaining
    let transferred =
        unbond(&config, &mut state, &mut stakers, &b"addr0000".to_vec(), None, g).unwrap();
    assert_eq!(transferred, 40);
}

#[test]
fn test_compute_reward() {
    let g = genesis_seconds();

    let (config, mut state) = instantiate(
        b"miaw0000".to_vec(),
        b"miawlp0000".to_vec(),
        vec![(g, g + 100, 1000000u128), (g + 100, g + 200, 2000000u128)],
        g,
    )
    .unwrap();
    let mut stakers = Stakers::new();

    // bond 100 tokens
    receive_cw20(
        &config,
        &mut state,
        &mut stakers,
        &b"miawlp0000".to_vec(),
        &b"addr0000".to_vec(),
        100,
        Some(Cw20HookMsg::Bond {}),
        g,
    )
    .unwrap();

    // 10 seconds passed; 100,000 rewards distributed; bond 100 more tokens
    receive_cw20(
        &config,
        &mut state,
        &mut stakers,
        &b"miawlp0000".to_vec(),
        &b"addr0000".to_vec(),
        100,
        Some(Cw20HookMsg::Bond {}),
        g + 10,
    )
    .unwrap();

    assert_eq!(
        query_staker_info(&config, &state, &stakers, &b"addr0000".to_vec(), g + 10).unwrap(),
        StakerInfoResponse {
            staker: b"addr0000".to_vec(),
            reward_index: Decimal::from_ratio(1000, 1),
            pending_reward: 100000,
            bond_amount: 200,
        }
    );

    // 100 seconds passed (90 first slot + 10 next slot)
    // 900,000 + 200,000 rewards distributed
    unbond(&config, &mut state, &mut stakers, &b"addr0000".to_vec(), Some(100), g + 110).unwrap();

    assert_eq!(
        query_staker_info(&config, &state, &stakers, &b"addr0000".to_vec(), g + 110).unwrap(),
        StakerInfoResponse {
            staker: b"addr0000".to_vec(),
            reward_index: Decimal::from_ratio(6500, 1), // 1,000 + 5,500
            pending_reward: 1200000,                    // 0.1 + 1.1
            bond_amount: 100,
        }
    );
}

#[test]
fn test_claim_rewards() {
    let g = genesis_seconds();

    let (config, mut state) = instantiate(
        b"miaw0000".to_vec(),
        b"miawlp0000".to_vec(),
        vec![(g, g + 100, 1000000u128), (g + 100, g + 200, 10000000u128)],
        g,
    )
    .unwrap();
    let mut stakers = Stakers::new();

    // bond 100 tokens
    receive_cw20(
        &config,
        &mut state,
        &mut stakers,
        &b"miawlp0000".to_vec(),
        &b"addr0000".to_vec(),
        100,
        Some(Cw20HookMsg::Bond {}),
        g,
    )
    .unwrap();

    // 100 seconds passed: 1,000,000 rewards distributed; the reward token
    // owes the staker the claimed 1,000,000
    let claimed = lp_staking::handle::claim_rewards(
        &config,
        &mut state,
        &mut stakers,
        &b"addr0000".to_vec(),
        g + 100,
    )
    .unwrap();
    assert_eq!(claimed, 1000000);
}

#[test]
fn test_bond_hook() {
    let g = genesis_seconds();

    let (config, mut state) = instantiate(
        b"miaw0000".to_vec(),
        b"miawlp0000".to_vec(),
        vec![(g, g + 100, 1000000u128), (g + 100, g + 200, 10000000u128)],
        g,
    )
    .unwrap();
    let mut stakers = Stakers::new();

    // bond 100 tokens
    receive_cw20(
        &config,
        &mut state,
        &mut stakers,
        &b"miawlp0000".to_vec(),
        &b"addr0000".to_vec(),
        100,
        Some(Cw20HookMsg::Bond {}),
        g,
    )
    .unwrap();

    // the contract now holds 100 + 300 pool tokens
    let amount = bond_hook(&config, &mut state, &mut stakers, &b"addr0000".to_vec(), 400, g)
        .unwrap();
    assert_eq!(amount, 300);
    assert_eq!(query_state(&state).total_bond_amount, 400);
}

#[test]
fn test_query_stakers() {
    let g = genesis_seconds();

    let (config, mut state) = instantiate(
        b"miaw0000".to_vec(),
        b"miawlp0000".to_vec(),
        vec![(g, g + 100, 1000000u128)],
        g,
    )
    .unwrap();
    let mut stakers = Stakers::new();

    for (addr, amount) in [
        (b"addr0000".to_vec(), 100u128),
        (b"addr0001".to_vec(), 200u128),
        (b"addr0002".to_vec(), 300u128),
    ] {
        receive_cw20(
            &config,
            &mut state,
            &mut stakers,
            &b"miawlp0000".to_vec(),
            &addr,
            amount,
            Some(Cw20HookMsg::Bond {}),
            g,
        )
        .unwrap();
    }

    assert_eq!(
        query_stakers_info(&config, &state, &stakers, None, None, Some(OrderBy::Asc), g),
        StakersInfoResponse {
            stakers: vec![
                StakerInfoResponse {
                    staker: b"addr0000".to_vec(),
                    reward_index: Decimal::zero(),
                    pending_reward: 0,
                    bond_amount: 100,
                },
                StakerInfoResponse {
                    staker: b"addr0001".to_vec(),
                    reward_index: Decimal::zero(),
                    pending_reward: 0,
                    bond_amount: 200,
                },
                StakerInfoResponse {
                    staker: b"addr0002".to_vec(),
                    reward_index: Decimal::zero(),
                    pending_reward: 0,
                    bond_amount: 300,
                },
            ]
        }
    );

    assert_eq!(
        query_stakers_info(&config, &state, &stakers, None, None, None, g),
        StakersInfoResponse {
            stakers: vec![
                StakerInfoResponse {
                    staker: b"addr0002".to_vec(),
                    reward_index: Decimal::zero(),
                    pending_reward: 0,
                    bond_amount: 300,
                },
                StakerInfoResponse {
                    staker: b"addr0001".to_vec(),
                    reward_index: Decimal::zero(),
                    pending_reward: 0,
                    bond_amount: 200,
                },
                StakerInfoResponse {
                    staker: b"addr0000".to_vec(),
                    reward_index: Decimal::zero(),
                    pending_reward: 0,
                    bond_amount: 100,
                },
            ]
        }
    );

    assert_eq!(
        query_stakers_info(
            &config,
            &state,
            &stakers,
            Some(b"addr0002".to_vec()),
            Some(1),
            None,
            g,
        ),
        StakersInfoResponse {
            stakers: vec![StakerInfoResponse {
                staker: b"addr0001".to_vec(),
                reward_index: Decimal::zero(),
                pending_reward: 0,
                bond_amount: 200,
            }]
        }
    );

    assert_eq!(
        query_stakers_info(
            &config,
            &state,
            &stakers,
            Some(b"addr0001".to_vec()),
            Some(1),
            Some(OrderBy::Asc),
            g,
        ),
        StakersInfoResponse {
            stakers: vec![StakerInfoResponse {
                staker: b"addr0002".to_vec(),
                reward_index: Decimal::zero(),
                pending_reward: 0,
                bond_amount: 300,
            }]
        }
    );
}
