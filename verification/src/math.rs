use vstd::arithmetic::div_mod::{lemma_div_is_ordered, lemma_div_pos_is_pos};
use vstd::arithmetic::mul::{lemma_mul_inequality, lemma_mul_is_commutative, lemma_mul_nonnegative};
use vstd::prelude::*;

verus! {

/// Number of atomic units in one whole unit of the fixed-point scale (10^18).
pub const SCALE: u128 = 1_000_000_000_000_000_000;

/// `num * 10^18 / den`, floored: the atomics of the ratio `num / den`.
pub open spec fn ratio_atomics(num: int, den: int) -> int {
    num * (SCALE as int) / den
}

/// `amount * atomics / 10^18`, floored: an amount scaled by a fixed-point
/// ratio given in atomics.
pub open spec fn mul_atomics_floor(amount: int, atomics: int) -> int {
    amount * atomics / (SCALE as int)
}

/// Fixed-point ratio with 18 fractional digits, stored as atomic units:
/// a value of `atomics` stands for the number `atomics / 10^18`.
#[derive(Clone, Copy, Debug, PartialEq, Eq, Structural)]
pub struct Decimal {
    pub atomics: u128,
}

/// Relies on `cosmwasm_bignumber::Decimal256::from_ratio`, which computes
/// `num * 10^18 / den` with flooring division in 256-bit arithmetic and
/// panics only on a zero denominator, and on `u128::from(Uint256)`, which
/// demands that the value fits in 128 bits.
#[verifier::external_body]
fn from_ratio_atomics(num: u128, den: u128) -> (r: u128)
    requires
        den != 0,
        ratio_atomics(num as int, den as int) <= u128::MAX,
    ensures
        r == ratio_atomics(num as int, den as int),
{
    let d = cosmwasm_bignumber::Decimal256::from_ratio(
        cosmwasm_bignumber::Uint256::from(num),
        cosmwasm_bignumber::Uint256::from(den),
    );
    u128::from(cosmwasm_bignumber::Uint256(d.0))
}

/// Relies on `Mul<Decimal256> for Uint256` (the mirrored
/// `Mul<Uint256> for Decimal256` forwards to it), which computes
/// `amount * atomics / 10^18` with flooring division in 256-bit arithmetic,
/// and on `u128::from(Uint256)`, which demands that the value fits in
/// 128 bits.
#[verifier::external_body]
fn mul_dec_floor(amount: u128, atomics: u128) -> (r: u128)
    requires
        mul_atomics_floor(amount as int, atomics as int) <= u128::MAX,
    ensures
        r == mul_atomics_floor(amount as int, atomics as int),
{
    let u = cosmwasm_bignumber::Uint256::from(amount);
    let d = cosmwasm_bignumber::Decimal256(cosmwasm_bignumber::Uint256::from(atomics).0);
    u128::from(u * d)
}

impl Decimal {
    /// The ratio 0.
    pub fn zero() -> (r: Decimal)
        ensures
            r.atomics == 0,
    {
        Decimal { atomics: 0 }
    }

    /// The ratio `num / den`, floored to 18 fractional digits.
    pub fn from_ratio(num: u128, den: u128) -> (r: Decimal)
        requires
            den != 0,
            ratio_atomics(num as int, den as int) <= u128::MAX,
        ensures
            r.atomics == ratio_atomics(num as int, den as int),
    {
        Decimal { atomics: from_ratio_atomics(num, den) }
    }

    /// `amount` scaled by this ratio, floored.
    pub fn mul_floor(&self, amount: u128) -> (r: u128)
        requires
            mul_atomics_floor(amount as int, self.atomics as int) <= u128::MAX,
        ensures
            r == mul_atomics_floor(amount as int, self.atomics as int),
    {
        mul_dec_floor(amount, self.atomics)
    }
}

/// Scaling an amount by a larger ratio never yields a smaller result, and
/// the result is never negative.
pub proof fn lemma_mul_atomics_le(amount: int, a1: int, a2: int)
    requires
        0 <= amount,
        0 <= a1 <= a2,
    ensures
        0 <= mul_atomics_floor(amount, a1) <= mul_atomics_floor(amount, a2),
{
    lemma_mul_nonnegative(amount, a1);
    lemma_mul_is_commutative(amount, a1);
    lemma_mul_is_commutative(amount, a2);
    lemma_mul_inequality(a1, a2, amount);
    lemma_div_is_ordered(0, amount * a1, SCALE as int);
    lemma_div_is_ordered(amount * a1, amount * a2, SCALE as int);
}

/// The atomics of a ratio of non-negative numbers are non-negative.
pub proof fn lemma_ratio_atomics_nonneg(num: int, den: int)
    requires
        0 <= num,
        0 < den,
    ensures
        0 <= ratio_atomics(num, den),
{
    lemma_mul_nonnegative(num, SCALE as int);
    if num * (SCALE as int) == 0 {
        lemma_div_is_ordered(0, 0, den);
    } else {
        lemma_div_pos_is_pos(num * (SCALE as int), den);
    }
}

} // verus!
