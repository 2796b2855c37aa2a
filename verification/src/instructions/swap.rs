//! A trade: a walk of the price across tick boundaries.

use crate::error::CLMMError;
use crate::price_math::{
    sqrt_price_at_tick, tick_to_sqrt_price_x64, MAX_SQRT_PRICE_X64, MAX_TICK, MIN_TICK,
};
use crate::price_order::lemma_sqrt_price_in_bounds;
use crate::state::{same_mint, tick, Pool};
use crate::swap_math::{compute_swap_step, swap_step};
use vstd::prelude::*;

verus! {

/// The records that a trade touches.
#[derive(Debug, PartialEq, Eq)]
pub struct Swap {
    /// The identifier of the asset that the caller presents as asset A.
    pub minta: [u8; 32],
    /// The identifier of the asset that the caller presents as asset B.
    pub mintb: [u8; 32],
    /// The pool.
    pub config: Pool,
    /// The tick boundaries that the trade may cross, in the order in which
    /// the price meets them: falling for a trade from A to B, rising for a
    /// trade from B to A.
    pub ticks: Vec<tick>,
}

impl Clone for Swap {
    fn clone(&self) -> (copy: Self)
        ensures
            copy.minta == self.minta,
            copy.mintb == self.mintb,
            copy.config == self.config,
            copy.ticks@ == self.ticks@,
    {
        let mut ticks: Vec<tick> = Vec::new();
        let mut i: usize = 0;
        while i < self.ticks.len()
            invariant
                i <= self.ticks.len(),
                ticks@ == self.ticks@.take(i as int),
            decreases self.ticks.len() - i,
        {
            ticks.push(self.ticks[i]);
            assert(self.ticks@.take(i + 1) == self.ticks@.take(i as int).push(
                self.ticks@[i as int],
            ));
            i = i + 1;
        }
        assert(self.ticks@.take(self.ticks.len() as int) == self.ticks@);
        Swap { minta: self.minta, mintb: self.mintb, config: self.config, ticks }
    }
}

/// How far a trade has come.
pub struct SwapProgress {
    /// The price that the trade has reached.
    pub sqrt_price: u128,
    /// The liquidity that is active at that price.
    pub liquidity: u128,
    /// The tick boundary that was crossed last.
    pub current_tick: i32,
    /// The input that is left to spend.
    pub remaining: u128,
    /// The input consumed so far.
    pub total_in: u128,
    /// The output produced so far.
    pub total_out: u128,
}

/// The active liquidity after the boundary with the net liquidity `delta`
/// has been crossed: a falling price leaves the positions that the delta
/// counts, a rising one enters them.
pub open spec fn liquidity_across(liquidity: int, delta: int, a_to_b: bool) -> int {
    if a_to_b {
        liquidity - delta
    } else {
        liquidity + delta
    }
}

/// The progress after one step toward `boundary`, the boundary of the
/// price `boundary_price`.
///
/// The step's input and output join the totals and its input leaves the
/// budget. A step that ends exactly on the boundary crosses it: the
/// boundary becomes the current tick and its net liquidity is applied.
/// Totals or liquidity outside 128 bits fail, as the step itself may.
pub open spec fn progress_after_step(
    progress: SwapProgress,
    boundary: tick,
    boundary_price: int,
    a_to_b: bool,
) -> Result<SwapProgress, CLMMError> {
    match swap_step(
        progress.sqrt_price as int,
        boundary_price,
        progress.liquidity as int,
        progress.remaining as int,
        a_to_b,
    ) {
        None => Err(CLMMError::ArithmeticOverflow),
        Some((next, amount_in, amount_out)) => {
            let crossed = next == boundary_price;
            let liquidity = if crossed {
                liquidity_across(progress.liquidity as int, boundary.liquidity as int, a_to_b)
            } else {
                progress.liquidity as int
            };
            if progress.total_in + amount_in > u128::MAX || progress.total_out + amount_out
                > u128::MAX || !(0 <= liquidity <= u128::MAX) {
                Err(CLMMError::ArithmeticOverflow)
            } else {
                Ok(
                    SwapProgress {
                        sqrt_price: next as u128,
                        liquidity: liquidity as u128,
                        current_tick: if crossed {
                            boundary.index
                        } else {
                            progress.current_tick
                        },
                        remaining: (progress.remaining - amount_in) as u128,
                        total_in: (progress.total_in + amount_in) as u128,
                        total_out: (progress.total_out + amount_out) as u128,
                    },
                )
            }
        },
    }
}

/// Whether a boundary price lies beyond the limit in the direction of the
/// trade.
pub open spec fn beyond_limit(boundary_price: int, limit: int, a_to_b: bool) -> bool {
    if a_to_b {
        boundary_price < limit
    } else {
        boundary_price > limit
    }
}

/// The progress of a trade after the boundaries `ticks[from..]`.
///
/// The walk ends when the boundaries or the budget are exhausted, or
/// before the first boundary whose price lies beyond the limit. A boundary
/// outside `MIN_TICK ..= MAX_TICK` fails the trade.
pub open spec fn walk_ticks(
    ticks: Seq<tick>,
    from: int,
    progress: SwapProgress,
    limit: int,
    a_to_b: bool,
) -> Result<SwapProgress, CLMMError>
    decreases ticks.len() - from,
{
    if from < 0 || from >= ticks.len() || progress.remaining == 0 {
        Ok(progress)
    } else if !(MIN_TICK <= ticks[from].index <= MAX_TICK) {
        Err(CLMMError::TickOutOfRange)
    } else if beyond_limit(sqrt_price_at_tick(ticks[from].index as int) as int, limit, a_to_b) {
        Ok(progress)
    } else {
        match progress_after_step(
            progress,
            ticks[from],
            sqrt_price_at_tick(ticks[from].index as int) as int,
            a_to_b,
        ) {
            Ok(next) => walk_ticks(ticks, from + 1, next, limit, a_to_b),
            Err(e) => Err(e),
        }
    }
}

/// The price limit of a trade: the caller's, or the extreme price in the
/// direction of the trade.
pub open spec fn price_limit(sqrt_price_limit: Option<u128>, a_to_b: bool) -> int {
    match sqrt_price_limit {
        Some(limit) => limit as int,
        None => if a_to_b {
            1
        } else {
            MAX_SQRT_PRICE_X64 as int
        },
    }
}

/// What a trade does: the pool after it and the pair
/// `(input consumed, output produced)`, or the error with which it fails.
///
/// The checks come in this order: the input is positive; there is a
/// boundary to walk; the two assets are those of the pool; the pool has
/// active liquidity; the walk succeeds; both totals fit 64 bits; the
/// output reaches the caller's minimum; the output is positive.
pub open spec fn swap_outcome(
    ctx: Swap,
    amount_in: u64,
    sqrt_price_limit: Option<u128>,
    min_amount_out: Option<u128>,
    a_to_b: bool,
) -> Result<(Pool, (u64, u64)), CLMMError> {
    let pool = ctx.config;
    if amount_in == 0 {
        Err(CLMMError::ZeroAmount)
    } else if ctx.ticks@.len() == 0 {
        Err(CLMMError::MissingTickData)
    } else if pool.minta@ != ctx.minta@ || pool.mintb@ != ctx.mintb@ {
        Err(CLMMError::InvalidTokenMint)
    } else if pool.active_liquidity == 0 {
        Err(CLMMError::InsufficientLiquidity)
    } else {
        match walk_ticks(
            ctx.ticks@,
            0,
            SwapProgress {
                sqrt_price: pool.sqrt_price,
                liquidity: pool.active_liquidity,
                current_tick: pool.current_tick,
                remaining: amount_in as u128,
                total_in: 0,
                total_out: 0,
            },
            price_limit(sqrt_price_limit, a_to_b),
            a_to_b,
        ) {
            Err(e) => Err(e),
            Ok(end) => if end.total_in > u64::MAX || end.total_out > u64::MAX {
                Err(CLMMError::AmountTooLarge)
            } else if min_amount_out.is_some() && end.total_out < min_amount_out.unwrap() {
                Err(CLMMError::SlippageExceeded)
            } else if end.total_out == 0 {
                Err(CLMMError::ZeroSwapOutput)
            } else {
                Ok(
                    (
                        Pool {
                            sqrt_price: end.sqrt_price,
                            active_liquidity: end.liquidity,
                            current_tick: end.current_tick,
                            ..pool
                        },
                        (end.total_in as u64, end.total_out as u64),
                    ),
                )
            },
        }
    }
}

/// The active liquidity across a boundary, checked to stay in 128 bits.
fn checked_liquidity_across(liquidity: u128, delta: i128, a_to_b: bool) -> (crossed: Option<u128>)
    ensures
        match crossed {
            Some(value) => value == liquidity_across(liquidity as int, delta as int, a_to_b),
            None => !(0 <= liquidity_across(liquidity as int, delta as int, a_to_b)
                <= u128::MAX),
        },
{
    if delta >= 0 {
        let magnitude: u128 = delta as u128;
        if a_to_b {
            liquidity.checked_sub(magnitude)
        } else {
            liquidity.checked_add(magnitude)
        }
    } else {
        let magnitude: u128 = if delta == i128::MIN {
            0x8000_0000_0000_0000_0000_0000_0000_0000
        } else {
            (-delta) as u128
        };
        if a_to_b {
            liquidity.checked_add(magnitude)
        } else {
            liquidity.checked_sub(magnitude)
        }
    }
}

impl Swap {
    /// Trades `amount_in` of the input asset against the pool: asset A for
    /// asset B if `a_to_b`, else asset B for asset A.
    ///
    /// The price starts at the pool's and steps toward each boundary of
    /// `ticks` in turn, against the liquidity that is active there, until
    /// the boundaries or the budget are exhausted or the next boundary
    /// lies beyond the price limit. The limit is `sqrt_price`, or the
    /// extreme price in the direction of the trade where none is given.
    ///
    /// On success the pool takes the price, the active liquidity and the
    /// tick that the walk has reached, and the result is the pair
    /// `(input consumed, output produced)`. On failure the pool is left as
    /// it was. [`swap_outcome`] says which of the two it is, and with which
    /// values. A price inside the bounds stays inside them.
    pub fn swap(
        &mut self,
        amount_in: u64,
        sqrt_price: Option<u128>,
        min_amount: Option<u128>,
        a_to_b: bool,
    ) -> (result: Result<(u64, u64), CLMMError>)
        ensures
            final(self).minta == old(self).minta,
            final(self).mintb == old(self).mintb,
            final(self).ticks == old(self).ticks,
            old(self).config.wf() ==> final(self).config.wf(),
            match swap_outcome(*old(self), amount_in, sqrt_price, min_amount, a_to_b) {
                Ok((pool, amounts)) => result == Ok::<(u64, u64), CLMMError>(amounts)
                    && final(self).config == pool,
                Err(e) => result == Err::<(u64, u64), CLMMError>(e) && final(self).config
                    == old(self).config,
            },
    {
        if amount_in == 0 {
            return Err(CLMMError::ZeroAmount);
        }
        if self.ticks.len() == 0 {
            return Err(CLMMError::MissingTickData);
        }
        if !same_mint(&self.config.minta, &self.minta) || !same_mint(
            &self.config.mintb,
            &self.mintb,
        ) {
            return Err(CLMMError::InvalidTokenMint);
        }
        if self.config.active_liquidity == 0 {
            return Err(CLMMError::InsufficientLiquidity);
        }
        let limit: u128 = match sqrt_price {
            Some(limit) => limit,
            None => if a_to_b {
                1
            } else {
                MAX_SQRT_PRICE_X64
            },
        };
        let mut current_price: u128 = self.config.sqrt_price;
        let mut liquidity: u128 = self.config.active_liquidity;
        let mut current_tick: i32 = self.config.current_tick;
        let mut remaining_amount: u128 = amount_in as u128;
        let mut total_amount_in: u128 = 0;
        let mut total_amount_out: u128 = 0;
        let ghost whole = walk_ticks(
            self.ticks@,
            0,
            (SwapProgress {
                sqrt_price: current_price,
                liquidity,
                current_tick,
                remaining: remaining_amount,
                total_in: 0,
                total_out: 0,
            }),
            limit as int,
            a_to_b,
        );
        let mut i: usize = 0;
        while i < self.ticks.len() && remaining_amount > 0
            invariant_except_break
                i <= self.ticks.len(),
                whole == walk_ticks(
                    self.ticks@,
                    i as int,
                    (SwapProgress {
                        sqrt_price: current_price,
                        liquidity,
                        current_tick,
                        remaining: remaining_amount,
                        total_in: total_amount_in,
                        total_out: total_amount_out,
                    }),
                    limit as int,
                    a_to_b,
                ),
            invariant
                *self == *old(self),
                old(self).config.wf() ==> (Pool { sqrt_price: current_price, ..self.config }).wf(),
                whole matches Err(e) ==> swap_outcome(
                    *old(self),
                    amount_in,
                    sqrt_price,
                    min_amount,
                    a_to_b,
                ) == Err::<(Pool, (u64, u64)), CLMMError>(e),
            ensures
                whole == Ok::<SwapProgress, CLMMError>(
                    (SwapProgress {
                        sqrt_price: current_price,
                        liquidity,
                        current_tick,
                        remaining: remaining_amount,
                        total_in: total_amount_in,
                        total_out: total_amount_out,
                    }),
                ),
            decreases self.ticks.len() - i,
        {
            let boundary: tick = self.ticks[i];
            let next_sqrt: u128 = match tick_to_sqrt_price_x64(boundary.index) {
                Ok(price) => price,
                Err(e) => { return Err(e); },
            };
            if (a_to_b && next_sqrt < limit) || (!a_to_b && next_sqrt > limit) {
                break ;
            }
            let (sqrt_new, computed_amount_in, computed_amount_out) = match compute_swap_step(
                current_price,
                next_sqrt,
                liquidity,
                remaining_amount,
                a_to_b,
            ) {
                Ok(step) => step,
                Err(e) => { return Err(e); },
            };
            proof {
                lemma_sqrt_price_in_bounds(boundary.index as int);
            }
            let total_in: u128 = match total_amount_in.checked_add(computed_amount_in) {
                Some(total) => total,
                None => { return Err(CLMMError::ArithmeticOverflow); },
            };
            let total_out: u128 = match total_amount_out.checked_add(computed_amount_out) {
                Some(total) => total,
                None => { return Err(CLMMError::ArithmeticOverflow); },
            };
            if sqrt_new == next_sqrt {
                liquidity =
                match checked_liquidity_across(liquidity, boundary.liquidity, a_to_b) {
                    Some(crossed) => crossed,
                    None => { return Err(CLMMError::ArithmeticOverflow); },
                };
                current_tick = boundary.index;
            }
            current_price = sqrt_new;
            remaining_amount = remaining_amount - computed_amount_in;
            total_amount_in = total_in;
            total_amount_out = total_out;
            i = i + 1;
        }
        if total_amount_in > u64::MAX as u128 || total_amount_out > u64::MAX as u128 {
            return Err(CLMMError::AmountTooLarge);
        }
        match min_amount {
            Some(min_out) => {
                if total_amount_out < min_out {
                    return Err(CLMMError::SlippageExceeded);
                }
            },
            None => {},
        }
        if total_amount_out == 0 {
            return Err(CLMMError::ZeroSwapOutput);
        }
        self.config.sqrt_price = current_price;
        self.config.active_liquidity = liquidity;
        self.config.current_tick = current_tick;
        Ok((total_amount_in as u64, total_amount_out as u64))
    }
}

/// A trade whose output, taken without a minimum, is below `minimum`
/// fails with `SlippageExceeded` when `minimum` is asked for.
pub proof fn lemma_swap_below_minimum_fails(
    ctx: Swap,
    amount_in: u64,
    sqrt_price_limit: Option<u128>,
    minimum: u128,
    a_to_b: bool,
)
    requires
        swap_outcome(ctx, amount_in, sqrt_price_limit, None, a_to_b).is_ok(),
        swap_outcome(ctx, amount_in, sqrt_price_limit, None, a_to_b).unwrap().1.1 < minimum,
    ensures
        swap_outcome(ctx, amount_in, sqrt_price_limit, Some(minimum), a_to_b) == Err::<
            (Pool, (u64, u64)),
            CLMMError,
        >(CLMMError::SlippageExceeded),
{
}

} // verus!
