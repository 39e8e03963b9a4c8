use vstd::prelude::*;

verus! {

/// Errors surfaced by the staking operations. Every error is terminal for
/// the operation that raised it: no state change is made alongside one.
#[derive(Clone, Copy, Debug, PartialEq, Eq, Structural)]
pub enum ContractError {
    /// The message sender is not the configured pool token.
    Unauthorized {},
    /// A hook bond found no newly received pool tokens.
    NothingToStake {},
    /// An unbond request exceeds the staker's bonded balance.
    InvalidUnbondAmount {},
    /// The embedded hook message could not be understood.
    InvalidCw20Msg {},
    /// No record exists for the given staker key.
    StakerNotFound {},
    /// A schedule entry does not satisfy `end > start`.
    InvalidSchedule {},
}

} // verus!
