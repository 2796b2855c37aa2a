//! Closing of a position: a withdrawal of liquidity from a range of ticks.

use crate::error::CLMMError;
use crate::instructions::add_liquidity::in_range;
use crate::liquidity_math::{
    calculate_liquidity_amounts, lemma_amounts_not_negative, liquidity_amounts,
};
use crate::price_math::{sqrt_price_at_tick, tick_to_sqrt_price_x64, MAX_TICK, MIN_TICK};
use crate::shares::{lemma_shares_not_negative, lp_shares_pro_rata, pro_rata_shares};
use crate::state::{aligned, is_aligned, same_mint, tick, Pool, Settlement};
use vstd::prelude::*;

verus! {

/// The records that a withdrawal touches.
#[derive(Clone, Copy, Debug, PartialEq, Eq)]
pub struct Withdraw {
    /// The identifier of the asset that the caller presents as asset A.
    pub minta: [u8; 32],
    /// The identifier of the asset that the caller presents as asset B.
    pub mintb: [u8; 32],
    /// The LP shares that the caller holds.
    pub user_lp_account: u64,
    /// The pool's reserve of asset A.
    pub vaulta: u64,
    /// The pool.
    pub config: Pool,
    /// The pool's reserve of asset B.
    pub vault_b: u64,
    /// The tick at the upper end of the range.
    pub uppertick: tick,
    /// The tick at the lower end of the range.
    pub lowertick: tick,
}

/// What a withdrawal of `liquidity` from `[lower_tick, upper_tick)` does:
/// the records after it and what it asks of the custody, or the error with
/// which it fails.
///
/// The checks come in this order: the range is not empty; the liquidity is
/// positive; the pool has shares outstanding; the two tick records carry
/// the indices asked for; the two assets are those of the pool; both
/// indices are aligned; the tick prices and the two amounts are computed
/// without overflow; the shares that the amounts are worth exist; the
/// caller holds them; the tick deltas, the active liquidity and the share
/// supply are computed without overflow. The lower tick loses the
/// liquidity and the upper tick gains it; the pool's active liquidity loses
/// it only where the range holds the pool's tick.
pub open spec fn withdrawal_outcome(
    ctx: Withdraw,
    lower_tick: int,
    upper_tick: int,
    liquidity: int,
) -> Result<(Withdraw, Settlement), CLMMError> {
    let pool = ctx.config;
    let active = if in_range(pool.current_tick as int, lower_tick, upper_tick) {
        pool.active_liquidity - liquidity
    } else {
        pool.active_liquidity as int
    };
    if upper_tick <= lower_tick {
        Err(CLMMError::TickMismatch)
    } else if liquidity == 0 {
        Err(CLMMError::ZeroAmount)
    } else if pool.total_lp_issued == 0 {
        Err(CLMMError::PoolEmpty)
    } else if lower_tick != ctx.lowertick.index || upper_tick != ctx.uppertick.index {
        Err(CLMMError::InvalidTickIndex)
    } else if pool.minta@ != ctx.minta@ || pool.mintb@ != ctx.mintb@ {
        Err(CLMMError::InvalidTokenMint)
    } else if !aligned(lower_tick) || !aligned(upper_tick) {
        Err(CLMMError::UnalignedTick)
    } else if !(MIN_TICK <= lower_tick <= MAX_TICK) || !(MIN_TICK <= upper_tick <= MAX_TICK) {
        Err(CLMMError::TickOutOfRange)
    } else {
        match liquidity_amounts(
            pool.sqrt_price as int,
            sqrt_price_at_tick(lower_tick) as int,
            sqrt_price_at_tick(upper_tick) as int,
            liquidity,
        ) {
            None => Err(CLMMError::ArithmeticOverflow),
            Some((amount_a, amount_b)) => match pro_rata_shares(
                amount_a,
                amount_b,
                pool.total_lp_issued as int,
                ctx.vaulta as int,
                ctx.vault_b as int,
            ) {
                Err(e) => Err(e),
                Ok(shares) => if shares > ctx.user_lp_account {
                    Err(CLMMError::InsufficientLPTokens)
                } else if ctx.lowertick.liquidity - liquidity < i128::MIN
                    || ctx.uppertick.liquidity + liquidity > i128::MAX || active < 0
                    || pool.total_lp_issued - shares < 0 {
                    Err(CLMMError::ArithmeticOverflow)
                } else {
                    Ok(
                        (
                            Withdraw {
                                config: Pool {
                                    active_liquidity: active as u128,
                                    total_lp_issued: (pool.total_lp_issued - shares) as u64,
                                    ..pool
                                },
                                lowertick: tick {
                                    liquidity: (ctx.lowertick.liquidity - liquidity) as i128,
                                    ..ctx.lowertick
                                },
                                uppertick: tick {
                                    liquidity: (ctx.uppertick.liquidity + liquidity) as i128,
                                    ..ctx.uppertick
                                },
                                ..ctx
                            },
                            Settlement {
                                amount_a: amount_a as u64,
                                amount_b: amount_b as u64,
                                lp_shares: shares as u64,
                            },
                        ),
                    )
                },
            },
        }
    }
}

impl Withdraw {
    /// Withdraws `liquidity` from the range `[lower_tick, upper_tick)`.
    ///
    /// On success the records are updated as [`withdrawal_outcome`] says,
    /// and the result names the amounts of the two assets to pay out and
    /// the LP shares to burn; the two reserves and the caller's holding
    /// are read, not updated. On failure every record is left as it was,
    /// and nothing is to be paid or burnt. The price of the pool is not
    /// touched, and the indices and prices of the two ticks are not either.
    pub fn add_liqiudity(
        &mut self,
        lower_tick: i32,
        upper_tick: i32,
        liquidity: u64,
    ) -> (result: Result<Settlement, CLMMError>)
        ensures
            old(self).config.wf() ==> final(self).config.wf(),
            old(self).lowertick.wf() ==> final(self).lowertick.wf(),
            old(self).uppertick.wf() ==> final(self).uppertick.wf(),
            match withdrawal_outcome(
                *old(self),
                lower_tick as int,
                upper_tick as int,
                liquidity as int,
            ) {
                Ok((after, settlement)) => result == Ok::<Settlement, CLMMError>(settlement)
                    && *final(self) == after,
                Err(e) => result == Err::<Settlement, CLMMError>(e) && *final(self) == *old(
                    self,
                ),
            },
    {
        if upper_tick <= lower_tick {
            return Err(CLMMError::TickMismatch);
        }
        if liquidity == 0 {
            return Err(CLMMError::ZeroAmount);
        }
        if self.config.total_lp_issued == 0 {
            return Err(CLMMError::PoolEmpty);
        }
        if lower_tick != self.lowertick.index || upper_tick != self.uppertick.index {
            return Err(CLMMError::InvalidTickIndex);
        }
        if !same_mint(&self.config.minta, &self.minta) || !same_mint(
            &self.config.mintb,
            &self.mintb,
        ) {
            return Err(CLMMError::InvalidTokenMint);
        }
        if !is_aligned(lower_tick) || !is_aligned(upper_tick) {
            return Err(CLMMError::UnalignedTick);
        }
        let price_lower: u128 = match tick_to_sqrt_price_x64(lower_tick) {
            Ok(price) => price,
            Err(e) => { return Err(e); },
        };
        let price_upper: u128 = match tick_to_sqrt_price_x64(upper_tick) {
            Ok(price) => price,
            Err(e) => { return Err(e); },
        };
        let (amount_a, amount_b) = match calculate_liquidity_amounts(
            self.config.sqrt_price,
            price_lower,
            price_upper,
            liquidity as u128,
        ) {
            Ok(amounts) => amounts,
            Err(e) => { return Err(e); },
        };
        let lp_shares: u64 = match lp_shares_pro_rata(
            amount_a,
            amount_b,
            self.config.total_lp_issued,
            self.vaulta,
            self.vault_b,
        ) {
            Ok(shares) => shares,
            Err(e) => { return Err(e); },
        };
        if lp_shares > self.user_lp_account {
            return Err(CLMMError::InsufficientLPTokens);
        }
        let lower_delta: i128 = match self.lowertick.liquidity.checked_sub(liquidity as i128) {
            Some(delta) => delta,
            None => { return Err(CLMMError::ArithmeticOverflow); },
        };
        let upper_delta: i128 = match self.uppertick.liquidity.checked_add(liquidity as i128) {
            Some(delta) => delta,
            None => { return Err(CLMMError::ArithmeticOverflow); },
        };
        let active_liquidity: u128 = if lower_tick <= self.config.current_tick
            && self.config.current_tick < upper_tick {
            match self.config.active_liquidity.checked_sub(liquidity as u128) {
                Some(active) => active,
                None => { return Err(CLMMError::ArithmeticOverflow); },
            }
        } else {
            self.config.active_liquidity
        };
        let total_lp_issued: u64 = match self.config.total_lp_issued.checked_sub(lp_shares) {
            Some(total) => total,
            None => { return Err(CLMMError::ArithmeticOverflow); },
        };
        self.lowertick.liquidity = lower_delta;
        self.uppertick.liquidity = upper_delta;
        self.config.active_liquidity = active_liquidity;
        self.config.total_lp_issued = total_lp_issued;
        Ok(Settlement { amount_a, amount_b, lp_shares })
    }
}

/// A withdrawal that is worth more LP shares than the caller holds fails
/// with `InsufficientLPTokens`: what it is worth is what the same
/// withdrawal burns for a caller who holds every share there can be.
pub proof fn lemma_withdrawal_beyond_holding_fails(
    ctx: Withdraw,
    lower_tick: int,
    upper_tick: int,
    liquidity: int,
)
    requires
        0 <= liquidity,
        withdrawal_outcome(
            (Withdraw { user_lp_account: u64::MAX, ..ctx }),
            lower_tick,
            upper_tick,
            liquidity,
        ).is_ok(),
        withdrawal_outcome(
            (Withdraw { user_lp_account: u64::MAX, ..ctx }),
            lower_tick,
            upper_tick,
            liquidity,
        ).unwrap().1.lp_shares > ctx.user_lp_account,
    ensures
        withdrawal_outcome(ctx, lower_tick, upper_tick, liquidity) == Err::<
            (Withdraw, Settlement),
            CLMMError,
        >(CLMMError::InsufficientLPTokens),
{
    let pool = ctx.config;
    let lower = sqrt_price_at_tick(lower_tick) as int;
    let upper = sqrt_price_at_tick(upper_tick) as int;
    lemma_amounts_not_negative(pool.sqrt_price as int, lower, upper, liquidity);
    let (amount_a, amount_b) = liquidity_amounts(
        pool.sqrt_price as int,
        lower,
        upper,
        liquidity,
    ).unwrap();
    lemma_shares_not_negative(
        amount_a,
        amount_b,
        pool.total_lp_issued as int,
        ctx.vaulta as int,
        ctx.vault_b as int,
    );
}

} // verus!
