//! The LP shares that a deposit mints and a withdrawal burns.

use crate::error::CLMMError;
use crate::price_math::{floor_sqrt, integer_sqrt};
use vstd::prelude::*;

verus! {

/// The shares of the first deposit into a pool: the geometric mean of the
/// two amounts where both are positive, else the larger of them.
///
/// The product of the two amounts is held to 64 bits.
pub open spec fn first_deposit_shares(amount_a: int, amount_b: int) -> Result<int, CLMMError> {
    if amount_a > 0 && amount_b > 0 {
        if amount_a * amount_b > u64::MAX {
            Err(CLMMError::ArithmeticOverflow)
        } else {
            Ok(floor_sqrt((amount_a * amount_b) as nat) as int)
        }
    } else if amount_a >= amount_b {
        Ok(amount_a)
    } else {
        Ok(amount_b)
    }
}

/// The shares that one side of a deposit is worth: the amount's part of
/// the reserve, taken of the shares outstanding. A side without reserve is
/// worth nothing.
pub open spec fn side_shares(amount: int, total_lp_issued: int, reserve: int) -> int {
    if reserve > 0 {
        amount * total_lp_issued / reserve
    } else {
        0
    }
}

/// The shares that amounts are worth in a pool with shares outstanding:
/// the smaller of what the two sides are worth.
///
/// A pool with shares outstanding and no reserves is refused, and so is a
/// result beyond 64 bits.
pub open spec fn pro_rata_shares(
    amount_a: int,
    amount_b: int,
    total_lp_issued: int,
    reserve_a: int,
    reserve_b: int,
) -> Result<int, CLMMError> {
    let share_a = side_shares(amount_a, total_lp_issued, reserve_a);
    let share_b = side_shares(amount_b, total_lp_issued, reserve_b);
    let shares = if share_a <= share_b {
        share_a
    } else {
        share_b
    };
    if reserve_a == 0 && reserve_b == 0 {
        Err(CLMMError::PoolEmpty)
    } else if shares > u64::MAX {
        Err(CLMMError::AmountTooLarge)
    } else {
        Ok(shares)
    }
}

/// The shares that a deposit of the two amounts mints.
pub open spec fn shares_to_mint(
    amount_a: int,
    amount_b: int,
    total_lp_issued: int,
    reserve_a: int,
    reserve_b: int,
) -> Result<int, CLMMError> {
    if total_lp_issued == 0 {
        first_deposit_shares(amount_a, amount_b)
    } else {
        pro_rata_shares(amount_a, amount_b, total_lp_issued, reserve_a, reserve_b)
    }
}

/// What one side is worth, computed in 128 bits, where it cannot overflow.
fn side_shares_of(amount: u64, total_lp_issued: u64, reserve: u64) -> (shares: u128)
    ensures
        shares == side_shares(amount as int, total_lp_issued as int, reserve as int),
{
    if reserve > 0 {
        proof {
            assert(amount * total_lp_issued <= u128::MAX) by (nonlinear_arith)
                requires
                    amount <= u64::MAX,
                    total_lp_issued <= u64::MAX,
            ;
        }
        (amount as u128) * (total_lp_issued as u128) / (reserve as u128)
    } else {
        0
    }
}

/// The LP shares that amounts of the two assets are worth in a pool with
/// `total_lp_issued > 0` shares outstanding and the given reserves.
///
/// Fails with `PoolEmpty` where both reserves are zero and with
/// `AmountTooLarge` where the result exceeds 64 bits.
pub fn lp_shares_pro_rata(
    amount_a: u64,
    amount_b: u64,
    total_lp_issued: u64,
    reserve_a: u64,
    reserve_b: u64,
) -> (result: Result<u64, CLMMError>)
    ensures
        match pro_rata_shares(
            amount_a as int,
            amount_b as int,
            total_lp_issued as int,
            reserve_a as int,
            reserve_b as int,
        ) {
            Ok(shares) => result == Ok::<u64, CLMMError>(shares as u64) && 0 <= shares
                <= u64::MAX,
            Err(e) => result == Err::<u64, CLMMError>(e),
        },
{
    if reserve_a == 0 && reserve_b == 0 {
        return Err(CLMMError::PoolEmpty);
    }
    let share_a: u128 = side_shares_of(amount_a, total_lp_issued, reserve_a);
    let share_b: u128 = side_shares_of(amount_b, total_lp_issued, reserve_b);
    let shares: u128 = if share_a <= share_b {
        share_a
    } else {
        share_b
    };
    if shares > u64::MAX as u128 {
        Err(CLMMError::AmountTooLarge)
    } else {
        Ok(shares as u64)
    }
}

/// The LP shares that a deposit of the two amounts mints.
///
/// The first deposit into a pool mints the geometric mean of the two
/// amounts, rounded down, or the larger amount where one of them is zero;
/// it fails with `ArithmeticOverflow` where the product of the amounts
/// exceeds 64 bits. A later deposit mints what [`lp_shares_pro_rata`]
/// gives.
pub fn lp_shares_to_mint(
    amount_a: u64,
    amount_b: u64,
    total_lp_issued: u64,
    reserve_a: u64,
    reserve_b: u64,
) -> (result: Result<u64, CLMMError>)
    ensures
        match shares_to_mint(
            amount_a as int,
            amount_b as int,
            total_lp_issued as int,
            reserve_a as int,
            reserve_b as int,
        ) {
            Ok(shares) => result == Ok::<u64, CLMMError>(shares as u64) && 0 <= shares
                <= u64::MAX,
            Err(e) => result == Err::<u64, CLMMError>(e),
        },
{
    if total_lp_issued == 0 {
        if amount_a > 0 && amount_b > 0 {
            match amount_a.checked_mul(amount_b) {
                Some(product) => Ok(integer_sqrt(product as u128)),
                None => Err(CLMMError::ArithmeticOverflow),
            }
        } else if amount_a >= amount_b {
            Ok(amount_a)
        } else {
            Ok(amount_b)
        }
    } else {
        lp_shares_pro_rata(amount_a, amount_b, total_lp_issued, reserve_a, reserve_b)
    }
}

/// Shares are not negative.
pub proof fn lemma_shares_not_negative(
    amount_a: int,
    amount_b: int,
    total_lp_issued: int,
    reserve_a: int,
    reserve_b: int,
)
    requires
        0 <= amount_a,
        0 <= amount_b,
        0 <= total_lp_issued,
        0 <= reserve_a,
        0 <= reserve_b,
    ensures
        0 <= side_shares(amount_a, total_lp_issued, reserve_a),
        0 <= side_shares(amount_b, total_lp_issued, reserve_b),
        pro_rata_shares(amount_a, amount_b, total_lp_issued, reserve_a, reserve_b).is_ok() ==> 0
            <= pro_rata_shares(
            amount_a,
            amount_b,
            total_lp_issued,
            reserve_a,
            reserve_b,
        ).unwrap() <= u64::MAX,
{
    if reserve_a > 0 {
        assert(0 <= amount_a * total_lp_issued / reserve_a) by (nonlinear_arith)
            requires
                0 <= amount_a,
                0 <= total_lp_issued,
                reserve_a > 0,
        ;
    }
    if reserve_b > 0 {
        assert(0 <= amount_b * total_lp_issued / reserve_b) by (nonlinear_arith)
            requires
                0 <= amount_b,
                0 <= total_lp_issued,
                reserve_b > 0,
        ;
    }
}

/// A deposit that matches both reserves of a pool, and so doubles them,
/// mints as many shares as were outstanding.
pub proof fn lemma_matching_deposit_doubles_shares(
    reserve_a: int,
    reserve_b: int,
    total_lp_issued: int,
)
    requires
        reserve_a > 0,
        reserve_b > 0,
        0 < total_lp_issued <= u64::MAX,
    ensures
        shares_to_mint(reserve_a, reserve_b, total_lp_issued, reserve_a, reserve_b) == Ok::<
            int,
            CLMMError,
        >(total_lp_issued),
{
    assert(reserve_a * total_lp_issued / reserve_a == total_lp_issued) by (nonlinear_arith)
        requires
            reserve_a > 0,
    ;
    assert(reserve_b * total_lp_issued / reserve_b == total_lp_issued) by (nonlinear_arith)
        requires
            reserve_b > 0,
    ;
}

} // verus!
