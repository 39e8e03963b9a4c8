use lp_staking::contract::{instantiate, receive_cw20};
use lp_staking::handle::{bond, bond_hook, claim_rewards, compute_reward, compute_staker_reward, unbond};
use lp_staking::math::{Decimal, SCALE};
use lp_staking::msg::{Cw20HookMsg, OrderBy, StakersInfoResponse};
use lp_staking::query::{query_staker_info, query_stakers_info, query_state};
use lp_staking::state::{StakerInfo, Stakers, State};
use lp_staking::ContractError;

const G: u64 = 1_571_797_419;

fn setup(schedule: Vec<(u64, u64, u128)>) -> (lp_staking::state::Config, State, Stakers) {
    let (config, state) = instantiate(
        b"miaw0000".to_vec(),
        b"miawlp0000".to_vec(),
        schedule,
        G,
    )
    .unwrap();
    (config, state, Stakers::new())
}

fn listed_bond_sum(r: &StakersInfoResponse) -> u128 {
    r.stakers.iter().map(|s| s.bond_amount).sum()
}

#[test]
fn instantiate_rejects_empty_interval() {
    let err = instantiate(
        b"miaw0000".to_vec(),
        b"miawlp0000".to_vec(),
        vec![(G, G + 100, 1000u128), (5, 5, 7u128)],
        G,
    )
    .unwrap_err();
    assert_eq!(err, ContractError::InvalidSchedule {});
}

#[test]
fn receive_rejects_unreadable_hook() {
    let (config, mut state, mut stakers) = setup(vec![(G, G + 100, 1000000u128)]);
    let err = receive_cw20(
        &config,
        &mut state,
        &mut stakers,
        &b"miawlp0000".to_vec(),
        &b"addr0000".to_vec(),
        100,
        None,
        G,
    )
    .unwrap_err();
    assert_eq!(err, ContractError::InvalidCw20Msg {});
}

#[test]
fn unbond_unknown_staker_fails() {
    let (config, mut state, mut stakers) = setup(vec![(G, G + 100, 1000000u128)]);
    let err = unbond(&config, &mut state, &mut stakers, &b"addr0000".to_vec(), None, G)
        .unwrap_err();
    assert_eq!(err, ContractError::StakerNotFound {});
}

#[test]
fn claim_unknown_staker_fails() {
    let (config, mut state, mut stakers) = setup(vec![(G, G + 100, 1000000u128)]);
    let err = claim_rewards(&config, &mut state, &mut stakers, &b"addr0000".to_vec(), G)
        .unwrap_err();
    assert_eq!(err, ContractError::StakerNotFound {});
}

#[test]
fn bond_hook_rejects_zero_delta() {
    let (config, mut state, mut stakers) = setup(vec![(G, G + 100, 1000000u128)]);
    bond(&config, &mut state, &mut stakers, &b"addr0000".to_vec(), 100, G).unwrap();
    // the contract holds exactly what is already accounted for
    let err = bond_hook(&config, &mut state, &mut stakers, &b"addr0000".to_vec(), 100, G)
        .unwrap_err();
    assert_eq!(err, ContractError::NothingToStake {});
}

#[test]
fn rejected_unbond_leaves_state_unchanged() {
    let (config, mut state, mut stakers) = setup(vec![(G, G + 100, 1000000u128)]);
    bond(&config, &mut state, &mut stakers, &b"addr0000".to_vec(), 100, G).unwrap();
    let before_state = query_state(&state);
    let before_info =
        query_staker_info(&config, &state, &stakers, &b"addr0000".to_vec(), G).unwrap();

    let err = unbond(&config, &mut state, &mut stakers, &b"addr0000".to_vec(), Some(101), G)
        .unwrap_err();
    assert_eq!(err, ContractError::InvalidUnbondAmount {});
    assert_eq!(query_state(&state), before_state);
    assert_eq!(
        query_staker_info(&config, &state, &stakers, &b"addr0000".to_vec(), G).unwrap(),
        before_info
    );
}

#[test]
fn settlement_twice_credits_nothing() {
    let state = State {
        last_distributed: G,
        total_bond_amount: 100,
        global_reward_index: Decimal::from_ratio(1000, 1),
    };
    let mut info = StakerInfo {
        reward_index: Decimal::zero(),
        bond_amount: 100,
        pending_reward: 0,
    };
    compute_staker_reward(&state, &mut info);
    assert_eq!(info.pending_reward, 100000);
    assert_eq!(info.reward_index, Decimal::from_ratio(1000, 1));
    compute_staker_reward(&state, &mut info);
    assert_eq!(info.pending_reward, 100000);
    assert_eq!(info.reward_index, Decimal::from_ratio(1000, 1));
}

#[test]
fn no_accrual_while_nothing_bonded() {
    let (config, mut state, _stakers) = setup(vec![(G, G + 100, 1000000u128)]);
    compute_reward(&config, &mut state, G + 50);
    assert_eq!(state.global_reward_index, Decimal::zero());
    assert_eq!(state.last_distributed, G + 50);
    // rewards released while nobody was bonded are lost, not carried forward
    compute_reward(&config, &mut state, G + 100);
    assert_eq!(state.global_reward_index, Decimal::zero());
    assert_eq!(state.last_distributed, G + 100);
}

#[test]
fn index_is_monotone_across_accruals() {
    let (config, mut state, mut stakers) = setup(vec![(G, G + 100, 1000000u128)]);
    bond(&config, &mut state, &mut stakers, &b"addr0000".to_vec(), 100, G).unwrap();
    let mut previous = state.global_reward_index.atomics;
    for dt in [1u64, 5, 10, 60, 100, 1000] {
        compute_reward(&config, &mut state, G + dt);
        assert!(state.global_reward_index.atomics >= previous);
        previous = state.global_reward_index.atomics;
    }
}

#[test]
fn bonded_amounts_are_conserved() {
    let (config, mut state, mut stakers) = setup(vec![(G, G + 100, 1000000u128)]);
    bond(&config, &mut state, &mut stakers, &b"addr0000".to_vec(), 100, G).unwrap();
    bond(&config, &mut state, &mut stakers, &b"addr0001".to_vec(), 200, G + 1).unwrap();
    bond(&config, &mut state, &mut stakers, &b"addr0002".to_vec(), 300, G + 2).unwrap();
    unbond(&config, &mut state, &mut stakers, &b"addr0001".to_vec(), Some(50), G + 3).unwrap();
    claim_rewards(&config, &mut state, &mut stakers, &b"addr0000".to_vec(), G + 4).unwrap();
    bond(&config, &mut state, &mut stakers, &b"addr0000".to_vec(), 25, G + 5).unwrap();
    unbond(&config, &mut state, &mut stakers, &b"addr0002".to_vec(), None, G + 6).unwrap();

    let listing =
        query_stakers_info(&config, &state, &stakers, None, Some(30), Some(OrderBy::Asc), G + 6);
    assert_eq!(listed_bond_sum(&listing), query_state(&state).total_bond_amount);
    assert_eq!(query_state(&state).total_bond_amount, 100 + 200 + 300 - 50 + 25 - 300);
}

#[test]
fn account_gc_on_full_unbond() {
    let (config, mut state, mut stakers) = setup(vec![(G, G + 100, 1000000u128)]);
    bond(&config, &mut state, &mut stakers, &b"addr0000".to_vec(), 100, G).unwrap();
    bond(&config, &mut state, &mut stakers, &b"addr0001".to_vec(), 200, G).unwrap();

    // still at genesis: no reward is pending, so a full unbond removes the record
    unbond(&config, &mut state, &mut stakers, &b"addr0000".to_vec(), None, G).unwrap();
    let listing = query_stakers_info(&config, &state, &stakers, None, None, Some(OrderBy::Asc), G);
    assert_eq!(listing.stakers.len(), 1);
    assert_eq!(listing.stakers[0].staker, b"addr0001".to_vec());
    assert_eq!(
        query_staker_info(&config, &state, &stakers, &b"addr0000".to_vec(), G).unwrap_err(),
        ContractError::StakerNotFound {}
    );
}

#[test]
fn claim_with_remaining_bond_keeps_record() {
    let (config, mut state, mut stakers) = setup(vec![(G, G + 100, 1000000u128)]);
    bond(&config, &mut state, &mut stakers, &b"addr0000".to_vec(), 100, G).unwrap();
    let claimed =
        claim_rewards(&config, &mut state, &mut stakers, &b"addr0000".to_vec(), G + 10).unwrap();
    assert_eq!(claimed, 100000);
    let info = query_staker_info(&config, &state, &stakers, &b"addr0000".to_vec(), G + 10).unwrap();
    assert_eq!(info.pending_reward, 0);
    assert_eq!(info.bond_amount, 100);
}

#[test]
fn claiming_zero_reward_is_not_an_error() {
    let (config, mut state, mut stakers) = setup(vec![(G + 1000, G + 1100, 1000000u128)]);
    bond(&config, &mut state, &mut stakers, &b"addr0000".to_vec(), 100, G).unwrap();
    let claimed =
        claim_rewards(&config, &mut state, &mut stakers, &b"addr0000".to_vec(), G + 1).unwrap();
    assert_eq!(claimed, 0);
}

#[test]
fn from_ratio_floors_to_atomics() {
    assert_eq!(Decimal::from_ratio(1, 3).atomics, 333_333_333_333_333_333);
    assert_eq!(Decimal::from_ratio(2, 3).atomics, 666_666_666_666_666_666);
    assert_eq!(Decimal::from_ratio(1000, 1).atomics, 1000 * SCALE);
}

#[test]
fn mul_floor_scales_and_floors() {
    // 300 * 1.5 == 450
    assert_eq!(Decimal::from_ratio(3, 2).mul_floor(300), 450);
    // 500 * 2/3 floors to 333
    assert_eq!(Decimal::from_ratio(2, 3).mul_floor(500), 333);
    assert_eq!(Decimal::zero().mul_floor(12345), 0);
}

#[test]
fn listing_limit_is_capped_at_thirty() {
    let (config, mut state, mut stakers) = setup(vec![(G, G + 100, 1000000u128)]);
    for i in 0u8..35 {
        bond(&config, &mut state, &mut stakers, &vec![i], 10, G).unwrap();
    }
    let capped =
        query_stakers_info(&config, &state, &stakers, None, Some(50), Some(OrderBy::Asc), G);
    assert_eq!(capped.stakers.len(), 30);
    let defaulted = query_stakers_info(&config, &state, &stakers, None, None, Some(OrderBy::Asc), G);
    assert_eq!(defaulted.stakers.len(), 10);
    assert_eq!(defaulted.stakers[0].staker, vec![0u8]);
}

#[test]
fn gapped_and_overlapping_schedules_accrue() {
    // two overlapping entries and a gap afterwards
    let (config, mut state, mut stakers) = setup(vec![
        (G, G + 100, 1000000u128),
        (G + 50, G + 150, 1000000u128),
        (G + 200, G + 300, 1000000u128),
    ]);
    bond(&config, &mut state, &mut stakers, &b"addr0000".to_vec(), 100, G).unwrap();
    // at G + 150: 1,000,000 + 1,000,000 released, nothing from the gapped entry
    let info =
        query_staker_info(&config, &state, &stakers, &b"addr0000".to_vec(), G + 150).unwrap();
    assert_eq!(info.pending_reward, 2000000);
    // inside the gap nothing more accrues
    let info =
        query_staker_info(&config, &state, &stakers, &b"addr0000".to_vec(), G + 200).unwrap();
    assert_eq!(info.pending_reward, 2000000);
}

#[test]
fn listing_an_empty_store_yields_nothing() {
    let (config, state, stakers) = setup(vec![(G, G + 100, 1000000u128)]);
    let listing = query_stakers_info(&config, &state, &stakers, None, None, Some(OrderBy::Asc), G);
    assert_eq!(listing.stakers.len(), 0);
    let listing = query_stakers_info(&config, &state, &stakers, None, None, None, G);
    assert_eq!(listing.stakers.len(), 0);
}

#[test]
fn pairs_to_map_keeps_last_value() {
    let pairs = vec![
        ("pool0000".to_string(), "pair0000".to_string()),
        ("pool0001".to_string(), "pair0001".to_string()),
        ("pool0000".to_string(), "pair0002".to_string()),
    ];
    let querier = lp_staking::mock_querier::TerraswapFactoryQuerier::new(&pairs);
    assert_eq!(querier.pairs.len(), 2);
    assert_eq!(querier.pairs.get("pool0000"), Some(&"pair0002".to_string()));
    assert_eq!(querier.pairs.get("pool0001"), Some(&"pair0001".to_string()));
}
