//! Pricing and accounting core of a concentrated-liquidity market maker.
//!
//! Liquidity providers place liquidity over ranges of ticks, and trades
//! move the price across the boundaries of those ranges. The crate holds
//! the arithmetic of that mechanism and the state transitions built on it;
//! custody of the assets and storage of the records are the caller's.

pub mod error;
pub mod instructions;
pub mod liquidity_math;
pub mod log_bounds;
pub mod price_math;
pub mod price_order;
pub mod round_trip;
pub mod shares;
pub mod state;
pub mod swap_math;
pub mod tick_of_price;

use crate::error::CLMMError;
use crate::instructions::add_liquidity::{deposit_outcome, Liquidity};
use crate::instructions::init_pool::{initial_sqrt_price, InitializePool};
use crate::instructions::init_tick::{new_tick_outcome, InitialTick};
use crate::instructions::swap::{swap_outcome, Swap};
use crate::instructions::withdraw::{withdrawal_outcome, Withdraw};
use crate::price_math::tick_at_sqrt_price;
use crate::state::{Pool, Settlement};
use vstd::prelude::*;

verus! {

/// Creates a pool of the two assets of `ctx` at `price`.
pub fn init_pool(ctx: &InitializePool, price: u64) -> (result: Result<Pool, CLMMError>)
    ensures
        price == 0 ==> result == Err::<Pool, CLMMError>(CLMMError::ZeroAmount),
        price >= 0x1_0000_0000 ==> result == Err::<Pool, CLMMError>(
            CLMMError::SqrtPriceOutOfRange,
        ),
        0 < price < 0x1_0000_0000 ==> result.is_ok(),
        price != 0 ==> match tick_at_sqrt_price(initial_sqrt_price(price)) {
            Ok(current_tick) => result == Ok::<Pool, CLMMError>(
                (Pool {
                    minta: ctx.minta,
                    mintb: ctx.mintb,
                    sqrt_price: initial_sqrt_price(price) as u128,
                    active_liquidity: 0,
                    total_lp_issued: 0,
                    current_tick: current_tick as i32,
                }),
            ) && result.unwrap().wf(),
            Err(e) => result == Err::<Pool, CLMMError>(e),
        },
{
    ctx.initializepool(price)
}

/// Fills in the record of a new tick.
pub fn init_tick(ctx: &mut InitialTick) -> (result: Result<(), CLMMError>)
    ensures
        match new_tick_outcome(old(ctx).tick.index) {
            Ok(filled) => result == Ok::<(), CLMMError>(()) && final(ctx).tick == filled
                && filled.wf(),
            Err(e) => result == Err::<(), CLMMError>(e) && *final(ctx) == *old(ctx),
        },
{
    ctx.initializetick()
}

/// Deposits `liquidity` over the range `[tick_lower, tick_upper)`.
///
/// A liquidity beyond 64 bits is refused with `AmountTooLarge`; otherwise
/// this is [`Liquidity::add_liqiudity`].
pub fn add_liquidity(
    ctx: &mut Liquidity,
    tick_lower: i32,
    tick_upper: i32,
    liquidity: u128,
) -> (result: Result<Settlement, CLMMError>)
    ensures
        liquidity > u64::MAX ==> result == Err::<Settlement, CLMMError>(
            CLMMError::AmountTooLarge,
        ) && *final(ctx) == *old(ctx),
        liquidity <= u64::MAX ==> match deposit_outcome(
            *old(ctx),
            tick_lower as int,
            tick_upper as int,
            liquidity as int,
        ) {
            Ok((after, settlement)) => result == Ok::<Settlement, CLMMError>(settlement)
                && *final(ctx) == after,
            Err(e) => result == Err::<Settlement, CLMMError>(e) && *final(ctx) == *old(ctx),
        },
{
    if liquidity > u64::MAX as u128 {
        return Err(CLMMError::AmountTooLarge);
    }
    ctx.add_liqiudity(tick_lower, tick_upper, liquidity as u64)
}

/// Withdraws `liquidity_to_remove` from the range `[tick_lower, tick_upper)`.
///
/// A liquidity beyond 64 bits is refused with `AmountTooLarge`; otherwise
/// this is [`Withdraw::add_liqiudity`].
pub fn withdraw_liquidity(
    ctx: &mut Withdraw,
    tick_lower: i32,
    tick_upper: i32,
    liquidity_to_remove: u128,
) -> (result: Result<Settlement, CLMMError>)
    ensures
        liquidity_to_remove > u64::MAX ==> result == Err::<Settlement, CLMMError>(
            CLMMError::AmountTooLarge,
        ) && *final(ctx) == *old(ctx),
        liquidity_to_remove <= u64::MAX ==> match withdrawal_outcome(
            *old(ctx),
            tick_lower as int,
            tick_upper as int,
            liquidity_to_remove as int,
        ) {
            Ok((after, settlement)) => result == Ok::<Settlement, CLMMError>(settlement)
                && *final(ctx) == after,
            Err(e) => result == Err::<Settlement, CLMMError>(e) && *final(ctx) == *old(ctx),
        },
{
    if liquidity_to_remove > u64::MAX as u128 {
        return Err(CLMMError::AmountTooLarge);
    }
    ctx.add_liqiudity(tick_lower, tick_upper, liquidity_to_remove as u64)
}

/// Trades `amount_in` of the input asset against the pool of `ctx`.
pub fn swap(
    ctx: &mut Swap,
    amount_in: u64,
    sqrt_price_limit: Option<u128>,
    min_amount_out: Option<u128>,
    a_to_b: bool,
) -> (result: Result<(u64, u64), CLMMError>)
    ensures
        final(ctx).minta == old(ctx).minta,
        final(ctx).mintb == old(ctx).mintb,
        final(ctx).ticks == old(ctx).ticks,
        old(ctx).config.wf() ==> final(ctx).config.wf(),
        match swap_outcome(*old(ctx), amount_in, sqrt_price_limit, min_amount_out, a_to_b) {
            Ok((pool, amounts)) => {
                &&& result == Ok::<(u64, u64), CLMMError>(amounts)
                &&& final(ctx).config == pool
            },
            Err(e) => {
                &&& result == Err::<(u64, u64), CLMMError>(e)
                &&& final(ctx).config == old(ctx).config
            },
        },
{
    ctx.swap(amount_in, sqrt_price_limit, min_amount_out, a_to_b)
}

} // verus!
