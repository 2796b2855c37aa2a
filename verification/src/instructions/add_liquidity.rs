//! Opening of a position: a deposit of liquidity over a range of ticks.

use crate::error::CLMMError;
use crate::liquidity_math::{calculate_liquidity_amounts, liquidity_amounts};
use crate::price_math::{sqrt_price_at_tick, tick_to_sqrt_price_x64, MAX_TICK, MIN_TICK};
use crate::shares::{lp_shares_to_mint, shares_to_mint};
use crate::state::{aligned, is_aligned, same_mint, tick, Pool, Settlement};
use vstd::prelude::*;

verus! {

/// The records that a deposit touches.
#[derive(Clone, Copy, Debug, PartialEq, Eq)]
pub struct Liquidity {
    /// The identifier of the asset that the caller presents as asset A.
    pub minta: [u8; 32],
    /// The identifier of the asset that the caller presents as asset B.
    pub mintb: [u8; 32],
    /// The pool's reserve of asset A.
    pub vaulta: u64,
    /// The pool.
    pub config: Pool,
    /// The pool's reserve of asset B.
    pub vault_b: u64,
    /// The tick at the upper end of the range.
    pub uppertick: tick,
    /// The tick at the lower end of the range.
    pub lowertick: tick,
}

/// Whether the price of a pool at `current_tick` lies in the range
/// `[lower_tick, upper_tick)`.
pub open spec fn in_range(current_tick: int, lower_tick: int, upper_tick: int) -> bool {
    lower_tick <= current_tick < upper_tick
}

/// What a deposit of `liquidity` over `[lower_tick, upper_tick)` does: the
/// records after it and what it asks of the custody, or the error with
/// which it fails.
///
/// The checks come in this order: the two tick records carry the indices
/// asked for; the two assets are those of the pool; both indices are
/// aligned; the tick deltas, the tick prices, the two amounts, the shares,
/// the share supply and the active liquidity are computed without
/// overflow. The lower tick gains the liquidity and the upper tick loses
/// it; the pool's active liquidity gains it only where the range holds the
/// pool's tick.
pub open spec fn deposit_outcome(
    ctx: Liquidity,
    lower_tick: int,
    upper_tick: int,
    liquidity: int,
) -> Result<(Liquidity, Settlement), CLMMError> {
    let pool = ctx.config;
    let active = if in_range(pool.current_tick as int, lower_tick, upper_tick) {
        pool.active_liquidity + liquidity
    } else {
        pool.active_liquidity as int
    };
    if lower_tick != ctx.lowertick.index || upper_tick != ctx.uppertick.index {
        Err(CLMMError::InvalidTickIndex)
    } else if pool.minta@ != ctx.minta@ || pool.mintb@ != ctx.mintb@ {
        Err(CLMMError::InvalidTokenMint)
    } else if !aligned(lower_tick) || !aligned(upper_tick) {
        Err(CLMMError::UnalignedTick)
    } else if ctx.lowertick.liquidity + liquidity > i128::MAX || ctx.uppertick.liquidity
        - liquidity < i128::MIN {
        Err(CLMMError::ArithmeticOverflow)
    } else if !(MIN_TICK <= lower_tick <= MAX_TICK) || !(MIN_TICK <= upper_tick <= MAX_TICK) {
        Err(CLMMError::TickOutOfRange)
    } else {
        match liquidity_amounts(
            pool.sqrt_price as int,
            sqrt_price_at_tick(lower_tick) as int,
            sqrt_price_at_tick(upper_tick) as int,
            liquidity,
        ) {
            None => Err(CLMMError::ArithmeticOverflow),
            Some((amount_a, amount_b)) => match shares_to_mint(
                amount_a,
                amount_b,
                pool.total_lp_issued as int,
                ctx.vaulta as int,
                ctx.vault_b as int,
            ) {
                Err(e) => Err(e),
                Ok(shares) => if pool.total_lp_issued + shares > u64::MAX || active
                    > u128::MAX {
                    Err(CLMMError::ArithmeticOverflow)
                } else {
                    Ok(
                        (
                            Liquidity {
                                config: Pool {
                                    active_liquidity: active as u128,
                                    total_lp_issued: (pool.total_lp_issued + shares) as u64,
                                    ..pool
                                },
                                lowertick: tick {
                                    liquidity: (ctx.lowertick.liquidity + liquidity) as i128,
                                    ..ctx.lowertick
                                },
                                uppertick: tick {
                                    liquidity: (ctx.uppertick.liquidity - liquidity) as i128,
                                    ..ctx.uppertick
                                },
                                ..ctx
                            },
                            Settlement {
                                amount_a: amount_a as u64,
                                amount_b: amount_b as u64,
                                lp_shares: shares as u64,
                            },
                        ),
                    )
                },
            },
        }
    }
}

impl Liquidity {
    /// Deposits `liquidity` over the range `[lower_tick, upper_tick)`.
    ///
    /// On success the records are updated as [`deposit_outcome`] says, and
    /// the result names the amounts of the two assets to take from the
    /// depositor and the LP shares to mint for them; the two reserves are
    /// read, not updated. On failure every record is left as it was. The
    /// price of the pool is not touched, and the indices and prices of the
    /// two ticks are not either.
    pub fn add_liqiudity(
        &mut self,
        lower_tick: i32,
        upper_tick: i32,
        liquidity: u64,
    ) -> (result: Result<Settlement, CLMMError>)
        ensures
            old(self).config.wf() ==> final(self).config.wf(),
            old(self).lowertick.wf() ==> final(self).lowertick.wf(),
            old(self).uppertick.wf() ==> final(self).uppertick.wf(),
            match deposit_outcome(
                *old(self),
                lower_tick as int,
                upper_tick as int,
                liquidity as int,
            ) {
                Ok((after, settlement)) => result == Ok::<Settlement, CLMMError>(settlement)
                    && *final(self) == after,
                Err(e) => result == Err::<Settlement, CLMMError>(e) && *final(self) == *old(
                    self,
                ),
            },
    {
        if lower_tick != self.lowertick.index || upper_tick != self.uppertick.index {
            return Err(CLMMError::InvalidTickIndex);
        }
        if !same_mint(&self.config.minta, &self.minta) || !same_mint(
            &self.config.mintb,
            &self.mintb,
        ) {
            return Err(CLMMError::InvalidTokenMint);
        }
        if !is_aligned(lower_tick) || !is_aligned(upper_tick) {
            return Err(CLMMError::UnalignedTick);
        }
        let lower_delta: i128 = match self.lowertick.liquidity.checked_add(liquidity as i128) {
            Some(delta) => delta,
            None => { return Err(CLMMError::ArithmeticOverflow); },
        };
        let upper_delta: i128 = match self.uppertick.liquidity.checked_sub(liquidity as i128) {
            Some(delta) => delta,
            None => { return Err(CLMMError::ArithmeticOverflow); },
        };
        let price_lower: u128 = match tick_to_sqrt_price_x64(lower_tick) {
            Ok(price) => price,
            Err(e) => { return Err(e); },
        };
        let price_upper: u128 = match tick_to_sqrt_price_x64(upper_tick) {
            Ok(price) => price,
            Err(e) => { return Err(e); },
        };
        let (amount_a, amount_b) = match calculate_liquidity_amounts(
            self.config.sqrt_price,
            price_lower,
            price_upper,
            liquidity as u128,
        ) {
            Ok(amounts) => amounts,
            Err(e) => { return Err(e); },
        };
        let lp_shares: u64 = match lp_shares_to_mint(
            amount_a,
            amount_b,
            self.config.total_lp_issued,
            self.vaulta,
            self.vault_b,
        ) {
            Ok(shares) => shares,
            Err(e) => { return Err(e); },
        };
        let total_lp_issued: u64 = match self.config.total_lp_issued.checked_add(lp_shares) {
            Some(total) => total,
            None => { return Err(CLMMError::ArithmeticOverflow); },
        };
        let active_liquidity: u128 = if lower_tick <= self.config.current_tick
            && self.config.current_tick < upper_tick {
            match self.config.active_liquidity.checked_add(liquidity as u128) {
                Some(active) => active,
                None => { return Err(CLMMError::ArithmeticOverflow); },
            }
        } else {
            self.config.active_liquidity
        };
        self.lowertick.liquidity = lower_delta;
        self.uppertick.liquidity = upper_delta;
        self.config.total_lp_issued = total_lp_issued;
        self.config.active_liquidity = active_liquidity;
        Ok(Settlement { amount_a, amount_b, lp_shares })
    }
}

} // verus!
