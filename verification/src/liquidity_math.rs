//! Token amounts that a liquidity magnitude holds over a price range.

use crate::error::CLMMError;
use crate::price_math::Q64;
use vstd::prelude::*;

verus! {

/// The amount of asset A that `liquidity` holds between the square-root
/// prices `lower` and `upper`:
/// `liquidity * (upper - lower) * 2^64 / (upper * lower)`, rounded down.
///
/// `None` where a checked step of the computation fails: the difference is
/// negative, the numerator or the denominator exceeds 128 bits, or the
/// denominator is zero.
pub open spec fn amount_a_between(liquidity: int, lower: int, upper: int) -> Option<int> {
    if lower <= upper && liquidity * (upper - lower) * Q64 <= u128::MAX && 0 < upper * lower
        <= u128::MAX {
        Some(liquidity * (upper - lower) * Q64 / (upper * lower))
    } else {
        None
    }
}

/// The amount of asset B that `liquidity` holds between the square-root
/// prices `lower` and `upper`: `liquidity * (upper - lower) / 2^64`,
/// rounded down.
///
/// `None` where the difference is negative or the product exceeds 128 bits.
pub open spec fn amount_b_between(liquidity: int, lower: int, upper: int) -> Option<int> {
    if lower <= upper && liquidity * (upper - lower) <= u128::MAX {
        Some(liquidity * (upper - lower) / (Q64 as int))
    } else {
        None
    }
}

/// An amount narrowed to the 64-bit width of an asset.
pub open spec fn narrowed(amount: Option<int>) -> Option<int> {
    match amount {
        Some(value) => if value <= u64::MAX {
            Some(value)
        } else {
            None
        },
        None => None,
    }
}

/// The two token amounts of a position of `liquidity` over
/// `[lower, upper]` at the price `current`, or `None` where the computation
/// overflows.
///
/// At or below the range the position is all asset A, at or above it all
/// asset B; inside, asset A covers the part of the range above the price
/// and asset B the part below it.
pub open spec fn liquidity_amounts(current: int, lower: int, upper: int, liquidity: int) -> Option<
    (int, int),
> {
    if current <= lower {
        match narrowed(amount_a_between(liquidity, lower, upper)) {
            Some(amount_a) => Some((amount_a, 0int)),
            None => None,
        }
    } else if current >= upper {
        match narrowed(amount_b_between(liquidity, lower, upper)) {
            Some(amount_b) => Some((0int, amount_b)),
            None => None,
        }
    } else {
        match (
            narrowed(amount_a_between(liquidity, current, upper)),
            narrowed(amount_b_between(liquidity, lower, current)),
        ) {
            (Some(amount_a), Some(amount_b)) => Some((amount_a, amount_b)),
            _ => None,
        }
    }
}

/// Asset A between two square-root prices, with every step checked.
pub(crate) fn checked_amount_a(liquidity: u128, lower: u128, upper: u128) -> (amount: Option<u128>)
    ensures
        match amount {
            Some(value) => amount_a_between(liquidity as int, lower as int, upper as int) == Some(
                value as int,
            ),
            None => amount_a_between(liquidity as int, lower as int, upper as int).is_none(),
        },
{
    let difference: u128 = match upper.checked_sub(lower) {
        Some(d) => d,
        None => { return None; },
    };
    proof {
        assert(liquidity * difference <= liquidity * difference * Q64) by (nonlinear_arith)
            requires
                Q64 >= 1,
        ;
    }
    let scaled: u128 = match liquidity.checked_mul(difference) {
        Some(s) => s,
        None => { return None; },
    };
    let numerator: u128 = match scaled.checked_mul(Q64) {
        Some(n) => n,
        None => { return None; },
    };
    let denominator: u128 = match upper.checked_mul(lower) {
        Some(d) => d,
        None => { return None; },
    };
    numerator.checked_div(denominator)
}

/// Asset B between two square-root prices, with every step checked.
pub(crate) fn checked_amount_b(liquidity: u128, lower: u128, upper: u128) -> (amount: Option<u128>)
    ensures
        match amount {
            Some(value) => amount_b_between(liquidity as int, lower as int, upper as int) == Some(
                value as int,
            ),
            None => amount_b_between(liquidity as int, lower as int, upper as int).is_none(),
        },
{
    let difference: u128 = match upper.checked_sub(lower) {
        Some(d) => d,
        None => { return None; },
    };
    let scaled: u128 = match liquidity.checked_mul(difference) {
        Some(s) => s,
        None => { return None; },
    };
    scaled.checked_div(Q64)
}

/// Narrows a checked amount to 64 bits.
pub(crate) fn narrow_amount(amount: Option<u128>) -> (narrow: Option<u64>)
    ensures
        match narrow {
            Some(value) => amount.is_some() && amount.unwrap() == value,
            None => amount.is_none() || amount.unwrap() > u64::MAX,
        },
{
    match amount {
        Some(value) => if value <= u64::MAX as u128 {
            Some(value as u64)
        } else {
            None
        },
        None => None,
    }
}

/// Computes the amounts of asset A and asset B that a position of
/// `liquidity` over the range of square-root prices
/// `[sqrt_price_lower_x64, sqrt_price_upper_x64]` holds when the pool's
/// square-root price is `sqrt_price_current_x64`.
///
/// Both amounts are rounded down. Any overflow, negative difference or
/// division by zero on the way, and any amount beyond 64 bits, gives
/// `ArithmeticOverflow`; there is no other failure.
pub fn calculate_liquidity_amounts(
    sqrt_price_current_x64: u128,
    sqrt_price_lower_x64: u128,
    sqrt_price_upper_x64: u128,
    liquidity: u128,
) -> (result: Result<(u64, u64), CLMMError>)
    ensures
        match liquidity_amounts(
            sqrt_price_current_x64 as int,
            sqrt_price_lower_x64 as int,
            sqrt_price_upper_x64 as int,
            liquidity as int,
        ) {
            Some((amount_a, amount_b)) => result == Ok::<(u64, u64), CLMMError>(
                (amount_a as u64, amount_b as u64),
            ) && amount_a <= u64::MAX && amount_b <= u64::MAX,
            None => result == Err::<(u64, u64), CLMMError>(CLMMError::ArithmeticOverflow),
        },
{
    if sqrt_price_current_x64 <= sqrt_price_lower_x64 {
        let amount = narrow_amount(
            checked_amount_a(liquidity, sqrt_price_lower_x64, sqrt_price_upper_x64),
        );
        match amount {
            Some(amount_a) => Ok((amount_a, 0)),
            None => Err(CLMMError::ArithmeticOverflow),
        }
    } else if sqrt_price_current_x64 >= sqrt_price_upper_x64 {
        let amount = narrow_amount(
            checked_amount_b(liquidity, sqrt_price_lower_x64, sqrt_price_upper_x64),
        );
        match amount {
            Some(amount_b) => Ok((0, amount_b)),
            None => Err(CLMMError::ArithmeticOverflow),
        }
    } else {
        let first = narrow_amount(
            checked_amount_a(liquidity, sqrt_price_current_x64, sqrt_price_upper_x64),
        );
        let second = narrow_amount(
            checked_amount_b(liquidity, sqrt_price_lower_x64, sqrt_price_current_x64),
        );
        match (first, second) {
            (Some(amount_a), Some(amount_b)) => Ok((amount_a, amount_b)),
            _ => Err(CLMMError::ArithmeticOverflow),
        }
    }
}

/// Amounts are not negative.
pub proof fn lemma_amounts_not_negative(current: int, lower: int, upper: int, liquidity: int)
    requires
        0 <= current,
        0 <= lower,
        0 <= upper,
        0 <= liquidity,
        liquidity_amounts(current, lower, upper, liquidity).is_some(),
    ensures
        0 <= liquidity_amounts(current, lower, upper, liquidity).unwrap().0 <= u64::MAX,
        0 <= liquidity_amounts(current, lower, upper, liquidity).unwrap().1 <= u64::MAX,
{
    let q = Q64 as int;
    assert forall|low: int, high: int|
        0 <= low <= high && amount_a_between(liquidity, low, high).is_some() implies 0
        <= #[trigger] amount_a_between(liquidity, low, high).unwrap() by {
        let numerator = liquidity * (high - low) * q;
        let denominator = high * low;
        assert(0 <= numerator / denominator) by (nonlinear_arith)
            requires
                numerator == liquidity * (high - low) * q,
                0 <= liquidity,
                0 <= high - low,
                q > 0,
                denominator > 0,
        {
            assert(0 <= liquidity * (high - low));
        }
    }
    assert forall|low: int, high: int|
        0 <= low <= high && amount_b_between(liquidity, low, high).is_some() implies 0
        <= #[trigger] amount_b_between(liquidity, low, high).unwrap() by {
        let product = liquidity * (high - low);
        assert(0 <= product / q) by (nonlinear_arith)
            requires
                product == liquidity * (high - low),
                0 <= liquidity,
                0 <= high - low,
                q > 0,
        ;
    }
}

/// A position whose range lies at or above the price holds asset A only,
/// and a position whose range lies at or below the price holds asset B
/// only.
///
/// The amount that it does hold is positive exactly when the liquidity is
/// large enough for the rounded-down quotient to reach one: for asset B
/// when `liquidity * (upper - lower) >= 2^64`, for asset A when
/// `liquidity * (upper - lower) * 2^64 >= upper * lower`.
pub proof fn lemma_one_sided_amounts(
    current: int,
    lower: int,
    upper: int,
    liquidity: int,
    amount_a: int,
    amount_b: int,
)
    requires
        0 <= lower < upper,
        0 <= liquidity,
        liquidity_amounts(current, lower, upper, liquidity) == Some((amount_a, amount_b)),
    ensures
        current >= upper ==> amount_a == 0 && (amount_b > 0 <==> liquidity * (upper - lower)
            >= Q64),
        current <= lower ==> amount_b == 0 && (amount_a > 0 <==> liquidity * (upper - lower) * Q64
            >= upper * lower),
{
    let product = liquidity * (upper - lower);
    if current <= lower {
        let numerator = product * Q64;
        let denominator = upper * lower;
        assert(amount_a == numerator / denominator);
        assert(numerator / denominator > 0 <==> numerator >= denominator)
            by (nonlinear_arith)
            requires
                denominator > 0,
                numerator >= 0,
        ;
    } else {
        assert(current >= upper ==> amount_b == product / (Q64 as int));
    }
}

/// The amounts are a function of the four inputs alone: two computations on
/// the same inputs agree, whether they succeed or fail.
pub proof fn lemma_liquidity_amounts_repeatable(
    current: int,
    lower: int,
    upper: int,
    liquidity: int,
    first: Option<(int, int)>,
    second: Option<(int, int)>,
)
    requires
        first == liquidity_amounts(current, lower, upper, liquidity),
        second == liquidity_amounts(current, lower, upper, liquidity),
    ensures
        first == second,
{
}

} // verus!
