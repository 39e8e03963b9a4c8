use crate::error::ContractError;
use crate::math::{
    lemma_mul_atomics_le, lemma_ratio_atomics_nonneg, mul_atomics_floor, ratio_atomics, Decimal,
};
use crate::state::{
    lemma_lookup_le_total, lookup, schedule_wf, total_bonds, Config, StakerInfo, Stakers, State,
};
use vstd::prelude::*;

verus! {

/// Whether the schedule entry `e` overlaps the accrual window `[last, now]`.
pub open spec fn entry_active(e: (u64, u64, u128), last: u64, now: u64) -> bool {
    !(e.0 > now || e.1 < last)
}

/// Seconds of `e`'s interval that fall inside the window `[last, now]`:
/// `min(end, now) - max(start, last)`.
pub open spec fn entry_passed(e: (u64, u64, u128), last: u64, now: u64) -> int {
    (if e.1 < now {
        e.1 as int
    } else {
        now as int
    }) - (if e.0 > last {
        e.0 as int
    } else {
        last as int
    })
}

/// Release rate of `e` in atomics per second: `total * 10^18 / (end - start)`,
/// floored.
pub open spec fn entry_rate(e: (u64, u64, u128)) -> int {
    ratio_atomics(e.2 as int, e.1 - e.0)
}

/// Tokens the entry `e` releases inside the window `[last, now]`, with the
/// same two flooring steps the fixed-point arithmetic performs.
pub open spec fn entry_release(e: (u64, u64, u128), last: u64, now: u64) -> int {
    if entry_active(e, last, now) {
        mul_atomics_floor(entry_passed(e, last, now), entry_rate(e))
    } else {
        0
    }
}

/// Tokens the whole schedule releases inside the window `[last, now]`.
pub open spec fn released_between(sched: Seq<(u64, u64, u128)>, last: u64, now: u64) -> int
    decreases sched.len(),
{
    if sched.len() == 0 {
        0
    } else {
        entry_release(sched[0], last, now) + released_between(sched.skip(1), last, now)
    }
}

/// By how many atomics the global reward index grows when accruing `st` up
/// to `now`: the released tokens divided by the bonded total, floored.
pub open spec fn index_delta(sched: Seq<(u64, u64, u128)>, st: State, now: u64) -> int {
    ratio_atomics(released_between(sched, st.last_distributed, now), st.total_bond_amount as int)
}

/// All intermediate quantities of an accrual of `st` up to `now` fit the
/// 128-bit value range the store holds.
pub open spec fn accrual_ok(sched: Seq<(u64, u64, u128)>, st: State, now: u64) -> bool {
    &&& st.last_distributed <= now
    &&& forall|i: int|
        0 <= i < sched.len() && entry_active(#[trigger] sched[i], st.last_distributed, now)
            ==> entry_rate(sched[i]) <= u128::MAX
    &&& released_between(sched, st.last_distributed, now) <= u128::MAX
    &&& (st.total_bond_amount != 0 ==> index_delta(sched, st, now)
        + st.global_reward_index.atomics <= u128::MAX)
}

/// The global state after accruing rewards up to `now`: the checkpoint moves
/// to `now`; while anything is bonded the index grows by `index_delta`;
/// while nothing is bonded the released rewards are dropped.
pub open spec fn accrued(sched: Seq<(u64, u64, u128)>, st: State, now: u64) -> State {
    if st.total_bond_amount == 0 {
        State {
            last_distributed: now,
            total_bond_amount: st.total_bond_amount,
            global_reward_index: st.global_reward_index,
        }
    } else {
        State {
            last_distributed: now,
            total_bond_amount: st.total_bond_amount,
            global_reward_index: Decimal {
                atomics: (st.global_reward_index.atomics + index_delta(sched, st, now)) as u128,
            },
        }
    }
}

/// Reward a staker has earned since the last personal settlement, with the
/// exact truncation order `bond * global - bond * personal` (each product
/// floored separately).
pub open spec fn earned(st: State, info: StakerInfo) -> int {
    mul_atomics_floor(info.bond_amount as int, st.global_reward_index.atomics as int)
        - mul_atomics_floor(info.bond_amount as int, info.reward_index.atomics as int)
}

/// The settlement of `info` against `st` stays within the value range: the
/// personal index never leads the global one, and the credited pending
/// reward fits.
pub open spec fn settle_ok(st: State, info: StakerInfo) -> bool {
    &&& info.reward_index.atomics <= st.global_reward_index.atomics
    &&& mul_atomics_floor(info.bond_amount as int, st.global_reward_index.atomics as int)
        <= u128::MAX
    &&& info.pending_reward + earned(st, info) <= u128::MAX
}

/// The staker record after a personal settlement against `st`: earned reward
/// moves into the pending balance and the personal index catches up.
pub open spec fn settled(st: State, info: StakerInfo) -> StakerInfo {
    StakerInfo {
        reward_index: st.global_reward_index,
        bond_amount: info.bond_amount,
        pending_reward: (info.pending_reward + earned(st, info)) as u128,
    }
}

/// The record stored for `k`, or the all-zero record a staker implicitly has
/// before the first bond.
pub open spec fn info_or_default(s: Seq<(Seq<u8>, StakerInfo)>, k: Seq<u8>) -> StakerInfo {
    match lookup(s, k) {
        Some(i) => i,
        None => StakerInfo {
            reward_index: Decimal { atomics: 0 },
            bond_amount: 0,
            pending_reward: 0,
        },
    }
}

/// Conservation: the stakers' bonded amounts sum to the global total.
pub open spec fn conserves(st: State, s: Seq<(Seq<u8>, StakerInfo)>) -> bool {
    total_bonds(s) == st.total_bond_amount
}

/// Every stored record can be settled against `st` within the value range.
pub open spec fn all_settle_ok(st: State, s: Seq<(Seq<u8>, StakerInfo)>) -> bool {
    forall|i: int| 0 <= i < s.len() ==> settle_ok(st, (#[trigger] s[i]).1)
}

/// `info` after bonding `amount` more tokens.
pub open spec fn bonded(info: StakerInfo, amount: u128) -> StakerInfo {
    StakerInfo {
        reward_index: info.reward_index,
        bond_amount: (info.bond_amount + amount) as u128,
        pending_reward: info.pending_reward,
    }
}

/// `info` after unbonding `amount` tokens.
pub open spec fn unbonded(info: StakerInfo, amount: u128) -> StakerInfo {
    StakerInfo {
        reward_index: info.reward_index,
        bond_amount: (info.bond_amount - amount) as u128,
        pending_reward: info.pending_reward,
    }
}

/// `st` with `amount` more tokens bonded in total.
pub open spec fn state_bonded(st: State, amount: u128) -> State {
    State {
        last_distributed: st.last_distributed,
        total_bond_amount: (st.total_bond_amount + amount) as u128,
        global_reward_index: st.global_reward_index,
    }
}

/// `st` with `amount` fewer tokens bonded in total.
pub open spec fn state_unbonded(st: State, amount: u128) -> State {
    State {
        last_distributed: st.last_distributed,
        total_bond_amount: (st.total_bond_amount - amount) as u128,
        global_reward_index: st.global_reward_index,
    }
}

proof fn lemma_entry_release_nonneg(e: (u64, u64, u128), last: u64, now: u64)
    requires
        e.1 > e.0,
        last <= now,
    ensures
        0 <= entry_release(e, last, now),
{
    if entry_active(e, last, now) {
        lemma_ratio_atomics_nonneg(e.2 as int, e.1 - e.0);
        lemma_mul_atomics_le(entry_passed(e, last, now), 0, entry_rate(e));
    }
}

proof fn lemma_released_nonneg(sched: Seq<(u64, u64, u128)>, last: u64, now: u64)
    requires
        schedule_wf(sched),
        last <= now,
    ensures
        0 <= released_between(sched, last, now),
    decreases sched.len(),
{
    if sched.len() > 0 {
        lemma_entry_release_nonneg(sched[0], last, now);
        assert forall|j: int| 0 <= j < sched.skip(1).len() implies (#[trigger] sched.skip(1)[j]).1
            > sched.skip(1)[j].0 by {
            assert(sched.skip(1)[j] == sched[j + 1]);
        }
        lemma_released_nonneg(sched.skip(1), last, now);
    }
}

proof fn lemma_released_push(sched: Seq<(u64, u64, u128)>, e: (u64, u64, u128), last: u64, now: u64)
    ensures
        released_between(sched.push(e), last, now) == released_between(sched, last, now)
            + entry_release(e, last, now),
    decreases sched.len(),
{
    let t = sched.push(e);
    if sched.len() == 0 {
        assert(t[0] == e);
        assert(t.skip(1) =~= Seq::<(u64, u64, u128)>::empty());
        assert(released_between(t.skip(1), last, now) == 0);
        assert(released_between(sched, last, now) == 0);
    } else {
        assert(t[0] == sched[0]);
        assert(t.skip(1) =~= sched.skip(1).push(e));
        lemma_released_push(sched.skip(1), e, last, now);
    }
}

proof fn lemma_released_take_step(sched: Seq<(u64, u64, u128)>, i: int, last: u64, now: u64)
    requires
        0 <= i < sched.len(),
    ensures
        released_between(sched.take(i + 1), last, now) == released_between(sched.take(i), last, now)
            + entry_release(sched[i], last, now),
{
    assert(sched.take(i + 1) =~= sched.take(i).push(sched[i]));
    lemma_released_push(sched.take(i), sched[i], last, now);
}

proof fn lemma_released_concat(sched: Seq<(u64, u64, u128)>, i: int, last: u64, now: u64)
    requires
        0 <= i <= sched.len(),
    ensures
        released_between(sched, last, now) == released_between(sched.take(i), last, now)
            + released_between(sched.skip(i), last, now),
    decreases i,
{
    if i == 0 {
        assert(sched.take(0) =~= Seq::<(u64, u64, u128)>::empty());
        assert(sched.skip(0) =~= sched);
    } else {
        assert(sched.take(i)[0] == sched[0]);
        assert(sched.take(i).skip(1) =~= sched.skip(1).take(i - 1));
        assert(sched.skip(i) =~= sched.skip(1).skip(i - 1));
        lemma_released_concat(sched.skip(1), i - 1, last, now);
    }
}

/// The take-prefix of a well-formed schedule is well-formed, and so is its
/// skip-suffix.
proof fn lemma_schedule_wf_parts(sched: Seq<(u64, u64, u128)>, i: int)
    requires
        schedule_wf(sched),
        0 <= i <= sched.len(),
    ensures
        schedule_wf(sched.take(i)),
        schedule_wf(sched.skip(i)),
{
    assert forall|j: int| 0 <= j < sched.take(i).len() implies (#[trigger] sched.take(i)[j]).1
        > sched.take(i)[j].0 by {
        assert(sched.take(i)[j] == sched[j]);
    }
    assert forall|j: int| 0 <= j < sched.skip(i).len() implies (#[trigger] sched.skip(i)[j]).1
        > sched.skip(i)[j].0 by {
        assert(sched.skip(i)[j] == sched[j + i]);
    }
}

/// Computes the rewards the schedule has released since `last_distributed`,
/// advances the checkpoint to `current_time` and, while anything is bonded,
/// grows the global reward index by the released amount per bonded token.
pub fn compute_reward(config: &Config, state: &mut State, current_time: u64)
    requires
        schedule_wf(config.distribution_schedule@),
        accrual_ok(config.distribution_schedule@, *old(state), current_time),
    ensures
        *final(state) == accrued(config.distribution_schedule@, *old(state), current_time),
        final(state).total_bond_amount == old(state).total_bond_amount,
        final(state).last_distributed == current_time,
        // Monotonic index: accrual never decreases the global reward index.
        final(state).global_reward_index.atomics >= old(state).global_reward_index.atomics,
        // No accrual while empty: with nothing bonded only the checkpoint moves.
        old(state).total_bond_amount == 0 ==> final(state).global_reward_index == old(
            state,
        ).global_reward_index,
{
    if state.total_bond_amount == 0 {
        state.last_distributed = current_time;
        return ;
    }
    let ghost sched = config.distribution_schedule@;
    let last = state.last_distributed;
    let n = config.distribution_schedule.len();
    let mut distributed: u128 = 0;
    let mut i: usize = 0;
    while i < n
        invariant
            i <= n,
            n == sched.len(),
            sched == config.distribution_schedule@,
            schedule_wf(sched),
            last <= current_time,
            forall|j: int|
                0 <= j < sched.len() && entry_active(#[trigger] sched[j], last, current_time)
                    ==> entry_rate(sched[j]) <= u128::MAX,
            released_between(sched, last, current_time) <= u128::MAX,
            distributed == released_between(sched.take(i as int), last, current_time),
        decreases n - i,
    {
        let e = config.distribution_schedule[i];
        proof {
            lemma_released_take_step(sched, i as int, last, current_time);
        }
        if e.0 > current_time || e.1 < last {
            proof {
                assert(!entry_active(sched[i as int], last, current_time));
            }
        } else {
            proof {
                // The entry's own release is sandwiched between prefix sums,
                // so it and the running total stay within range.
                lemma_released_concat(sched, i as int, last, current_time);
                lemma_released_concat(sched, i + 1 as int, last, current_time);
                lemma_schedule_wf_parts(sched, i as int);
                lemma_schedule_wf_parts(sched, i + 1 as int);
                lemma_released_nonneg(sched.take(i as int), last, current_time);
                lemma_released_nonneg(sched.skip(i + 1 as int), last, current_time);
                lemma_entry_release_nonneg(sched[i as int], last, current_time);
            }
            let seconds_passed = (if e.1 < current_time {
                e.1
            } else {
                current_time
            }) - (if e.0 > last {
                e.0
            } else {
                last
            });
            let num_seconds = e.1 - e.0;
            let rate = Decimal::from_ratio(e.2, num_seconds as u128);
            let amt = rate.mul_floor(seconds_passed as u128);
            distributed = distributed + amt;
        }
        i = i + 1;
    }
    proof {
        assert(sched.take(n as int) =~= sched);
    }
    state.last_distributed = current_time;
    proof {
        lemma_released_nonneg(sched, last, current_time);
        lemma_ratio_atomics_nonneg(
            released_between(sched, last, current_time),
            state.total_bond_amount as int,
        );
    }
    let delta = Decimal::from_ratio(distributed, state.total_bond_amount);
    state.global_reward_index = Decimal { atomics: state.global_reward_index.atomics + delta.atomics };
}

/// Settles a staker's personal rewards against the current global index:
/// the newly earned reward moves into `pending_reward` and the personal
/// index snaps to the global one.
pub fn compute_staker_reward(state: &State, staker_info: &mut StakerInfo)
    requires
        settle_ok(*state, *old(staker_info)),
    ensures
        *final(staker_info) == settled(*state, *old(staker_info)),
{
    proof {
        lemma_mul_atomics_le(
            old(staker_info).bond_amount as int,
            old(staker_info).reward_index.atomics as int,
            state.global_reward_index.atomics as int,
        );
    }
    let all = state.global_reward_index.mul_floor(staker_info.bond_amount);
    let prior = staker_info.reward_index.mul_floor(staker_info.bond_amount);
    let pending_reward = all - prior;
    staker_info.reward_index = state.global_reward_index;
    staker_info.pending_reward = staker_info.pending_reward + pending_reward;
}

fn increase_bond_amount(state: &mut State, staker_info: &mut StakerInfo, amount: u128)
    requires
        old(state).total_bond_amount + amount <= u128::MAX,
        old(staker_info).bond_amount + amount <= u128::MAX,
    ensures
        *final(state) == state_bonded(*old(state), amount),
        *final(staker_info) == bonded(*old(staker_info), amount),
{
    state.total_bond_amount = state.total_bond_amount + amount;
    staker_info.bond_amount = staker_info.bond_amount + amount;
}

fn decrease_bond_amount(state: &mut State, staker_info: &mut StakerInfo, amount: u128)
    requires
        amount <= old(state).total_bond_amount,
        amount <= old(staker_info).bond_amount,
    ensures
        *final(state) == state_unbonded(*old(state), amount),
        *final(staker_info) == unbonded(*old(staker_info), amount),
{
    state.total_bond_amount = state.total_bond_amount - amount;
    staker_info.bond_amount = staker_info.bond_amount - amount;
}

/// Bonds `amount` pool tokens for `sender_addr`: settles global and personal
/// rewards, then increases both bonded amounts. Creates the record on a
/// first bond and never deletes one.
pub fn bond(
    config: &Config,
    state: &mut State,
    stakers: &mut Stakers,
    sender_addr: &Vec<u8>,
    amount: u128,
    now: u64,
) -> (r: Result<(), ContractError>)
    requires
        old(stakers).wf(),
        conserves(*old(state), old(stakers)@),
        schedule_wf(config.distribution_schedule@),
        accrual_ok(config.distribution_schedule@, *old(state), now),
        settle_ok(
            accrued(config.distribution_schedule@, *old(state), now),
            info_or_default(old(stakers)@, sender_addr@),
        ),
        old(state).total_bond_amount + amount <= u128::MAX,
    ensures
        r == Ok::<(), ContractError>(()),
        final(stakers).wf(),
        conserves(*final(state), final(stakers)@),
        ({
            let acc = accrued(config.distribution_schedule@, *old(state), now);
            let set = settled(acc, info_or_default(old(stakers)@, sender_addr@));
            &&& *final(state) == state_bonded(acc, amount)
            &&& lookup(final(stakers)@, sender_addr@) == Some(bonded(set, amount))
            &&& forall|q: Seq<u8>|
                q != sender_addr@ ==> lookup(final(stakers)@, q) == lookup(old(stakers)@, q)
        }),
{
    compute_reward(config, state, now);
    let mut staker_info = match stakers.get(sender_addr) {
        Some(i) => i,
        None => StakerInfo::default(),
    };
    compute_staker_reward(state, &mut staker_info);
    proof {
        lemma_lookup_le_total(old(stakers)@, sender_addr@);
    }
    increase_bond_amount(state, &mut staker_info, amount);
    stakers.save(sender_addr, staker_info);
    Ok(())
}

/// Bonds the pool tokens the contract has received beyond what is accounted
/// for: the amount is `lp_token_balance - total_bond_amount`. Requires an
/// existing record for the caller and rejects a zero amount.
pub fn bond_hook(
    config: &Config,
    state: &mut State,
    stakers: &mut Stakers,
    sender_addr: &Vec<u8>,
    lp_token_balance: u128,
    now: u64,
) -> (r: Result<u128, ContractError>)
    requires
        old(stakers).wf(),
        conserves(*old(state), old(stakers)@),
        schedule_wf(config.distribution_schedule@),
        accrual_ok(config.distribution_schedule@, *old(state), now),
        settle_ok(
            accrued(config.distribution_schedule@, *old(state), now),
            info_or_default(old(stakers)@, sender_addr@),
        ),
        lp_token_balance >= old(state).total_bond_amount,
    ensures
        final(stakers).wf(),
        conserves(*final(state), final(stakers)@),
        ({
            let amount = (lp_token_balance - old(state).total_bond_amount) as u128;
            let acc = accrued(config.distribution_schedule@, *old(state), now);
            if amount == 0 {
                &&& r == Err::<u128, ContractError>(ContractError::NothingToStake {})
                &&& *final(state) == *old(state)
                &&& final(stakers)@ == old(stakers)@
            } else {
                match lookup(old(stakers)@, sender_addr@) {
                    Option::None => {
                        &&& r == Err::<u128, ContractError>(ContractError::StakerNotFound {})
                        &&& *final(state) == *old(state)
                        &&& final(stakers)@ == old(stakers)@
                    },
                    Option::Some(prev) => {
                        let set = settled(acc, prev);
                        &&& r == Ok::<u128, ContractError>(amount)
                        &&& *final(state) == state_bonded(acc, amount)
                        &&& lookup(final(stakers)@, sender_addr@) == Some(bonded(set, amount))
                        &&& forall|q: Seq<u8>|
                            q != sender_addr@ ==> lookup(final(stakers)@, q) == lookup(
                                old(stakers)@,
                                q,
                            )
                    },
                }
            }
        }),
{
    let amount = lp_token_balance - state.total_bond_amount;
    if amount == 0 {
        return Err(ContractError::NothingToStake {});
    }
    let mut staker_info = match stakers.get(sender_addr) {
        Some(i) => i,
        None => {
            return Err(ContractError::StakerNotFound {});
        },
    };
    compute_reward(config, state, now);
    compute_staker_reward(state, &mut staker_info);
    proof {
        lemma_lookup_le_total(old(stakers)@, sender_addr@);
    }
    increase_bond_amount(state, &mut staker_info, amount);
    stakers.save(sender_addr, staker_info);
    Ok(amount)
}

/// Unbonds tokens for `sender_addr`: the given amount, or the whole bonded
/// balance when none is given. Rejects amounts above the bonded balance.
/// The caller owes the staker a pool-token transfer of the returned amount.
/// A record left with nothing bonded and nothing pending is deleted.
pub fn unbond(
    config: &Config,
    state: &mut State,
    stakers: &mut Stakers,
    sender_addr: &Vec<u8>,
    amount: Option<u128>,
    now: u64,
) -> (r: Result<u128, ContractError>)
    requires
        old(stakers).wf(),
        conserves(*old(state), old(stakers)@),
        schedule_wf(config.distribution_schedule@),
        accrual_ok(config.distribution_schedule@, *old(state), now),
        settle_ok(
            accrued(config.distribution_schedule@, *old(state), now),
            info_or_default(old(stakers)@, sender_addr@),
        ),
    ensures
        final(stakers).wf(),
        conserves(*final(state), final(stakers)@),
        ({
            let acc = accrued(config.distribution_schedule@, *old(state), now);
            match lookup(old(stakers)@, sender_addr@) {
                Option::None => {
                    &&& r == Err::<u128, ContractError>(ContractError::StakerNotFound {})
                    &&& *final(state) == *old(state)
                    &&& final(stakers)@ == old(stakers)@
                },
                Option::Some(prev) => {
                    if amount matches Some(a) && prev.bond_amount < a {
                        // Partial unbond rejection: asking for more than is
                        // bonded fails and leaves all state unchanged.
                        &&& r == Err::<u128, ContractError>(ContractError::InvalidUnbondAmount {})
                        &&& *final(state) == *old(state)
                        &&& final(stakers)@ == old(stakers)@
                    } else {
                        let resolved = (match amount {
                            Some(a) => a,
                            None => prev.bond_amount,
                        });
                        let set = settled(acc, prev);
                        let left = unbonded(set, resolved);
                        &&& r == Ok::<u128, ContractError>(resolved)
                        &&& *final(state) == state_unbonded(acc, resolved)
                        &&& (if left.pending_reward == 0 && left.bond_amount == 0 {
                            lookup(final(stakers)@, sender_addr@) == None::<StakerInfo>
                        } else {
                            lookup(final(stakers)@, sender_addr@) == Some(left)
                        })
                        &&& forall|q: Seq<u8>|
                            q != sender_addr@ ==> lookup(final(stakers)@, q) == lookup(
                                old(stakers)@,
                                q,
                            )
                    }
                },
            }
        }),
{
    let mut staker_info = match stakers.get(sender_addr) {
        Some(i) => i,
        None => {
            return Err(ContractError::StakerNotFound {});
        },
    };
    let amount_to_unbond: u128 = match amount {
        Some(a) => {
            if staker_info.bond_amount < a {
                return Err(ContractError::InvalidUnbondAmount {});
            }
            a
        },
        None => staker_info.bond_amount,
    };
    compute_reward(config, state, now);
    compute_staker_reward(state, &mut staker_info);
    proof {
        lemma_lookup_le_total(old(stakers)@, sender_addr@);
    }
    decrease_bond_amount(state, &mut staker_info, amount_to_unbond);
    if staker_info.pending_reward == 0 && staker_info.bond_amount == 0 {
        stakers.remove(sender_addr);
    } else {
        stakers.save(sender_addr, staker_info);
    }
    Ok(amount_to_unbond)
}

/// Pays out a staker's settled pending reward, zeroing the pending balance.
/// The caller owes the staker a reward-token transfer of the returned
/// amount; claiming zero is not an error. A record left with nothing bonded
/// is deleted.
pub fn claim_rewards(
    config: &Config,
    state: &mut State,
    stakers: &mut Stakers,
    sender_addr: &Vec<u8>,
    now: u64,
) -> (r: Result<u128, ContractError>)
    requires
        old(stakers).wf(),
        conserves(*old(state), old(stakers)@),
        schedule_wf(config.distribution_schedule@),
        accrual_ok(config.distribution_schedule@, *old(state), now),
        settle_ok(
            accrued(config.distribution_schedule@, *old(state), now),
            info_or_default(old(stakers)@, sender_addr@),
        ),
    ensures
        final(stakers).wf(),
        conserves(*final(state), final(stakers)@),
        ({
            let acc = accrued(config.distribution_schedule@, *old(state), now);
            match lookup(old(stakers)@, sender_addr@) {
                Option::None => {
                    &&& r == Err::<u128, ContractError>(ContractError::StakerNotFound {})
                    &&& *final(state) == *old(state)
                    &&& final(stakers)@ == old(stakers)@
                },
                Option::Some(prev) => {
                    let set = settled(acc, prev);
                    let left = StakerInfo {
                        reward_index: set.reward_index,
                        bond_amount: set.bond_amount,
                        pending_reward: 0,
                    };
                    &&& r == Ok::<u128, ContractError>(set.pending_reward)
                    &&& *final(state) == acc
                    &&& (if left.bond_amount == 0 {
                        lookup(final(stakers)@, sender_addr@) == None::<StakerInfo>
                    } else {
                        lookup(final(stakers)@, sender_addr@) == Some(left)
                    })
                    &&& forall|q: Seq<u8>|
                        q != sender_addr@ ==> lookup(final(stakers)@, q) == lookup(
                            old(stakers)@,
                            q,
                        )
                },
            }
        }),
{
    let mut staker_info = match stakers.get(sender_addr) {
        Some(i) => i,
        None => {
            return Err(ContractError::StakerNotFound {});
        },
    };
    compute_reward(config, state, now);
    compute_staker_reward(state, &mut staker_info);
    proof {
        lemma_lookup_le_total(old(stakers)@, sender_addr@);
    }
    let amount = staker_info.pending_reward;
    staker_info.pending_reward = 0;
    if staker_info.bond_amount == 0 {
        stakers.remove(sender_addr);
    } else {
        stakers.save(sender_addr, staker_info);
    }
    Ok(amount)
}

/// Law: settling a staker twice against the same global state is a no-op
/// the second time; in particular the pending reward does not change.
pub proof fn lemma_settlement_idempotent(st: State, info: StakerInfo)
    requires
        settle_ok(st, info),
    ensures
        settle_ok(st, settled(st, info)),
        settled(st, settled(st, info)) == settled(st, info),
{
    lemma_mul_atomics_le(
        info.bond_amount as int,
        info.reward_index.atomics as int,
        st.global_reward_index.atomics as int,
    );
    assert(earned(st, settled(st, info)) == 0);
}

/// Law: accruing a second time with no intervening time advance changes
/// nothing, whatever the schedule.
pub proof fn lemma_accrual_idempotent(sched: Seq<(u64, u64, u128)>, st: State, now: u64)
    ensures
        accrued(sched, accrued(sched, st, now), now) == accrued(sched, st, now),
{
    let a = accrued(sched, st, now);
    lemma_released_zero_window(sched, now);
    if a.total_bond_amount != 0 {
        vstd::arithmetic::div_mod::lemma_div_of0(a.total_bond_amount as int);
        assert(index_delta(sched, a, now) == 0);
    }
}

proof fn lemma_released_zero_window(sched: Seq<(u64, u64, u128)>, t: u64)
    ensures
        released_between(sched, t, t) == 0,
    decreases sched.len(),
{
    if sched.len() > 0 {
        let e = sched[0];
        if entry_active(e, t, t) {
            assert(entry_passed(e, t, t) == 0);
            assert(entry_release(e, t, t) == 0) by {
                vstd::arithmetic::div_mod::lemma_div_of0(crate::math::SCALE as int);
            }
        }
        lemma_released_zero_window(sched.skip(1), t);
    }
}

} // verus!
