//! Creation of a pool.

use crate::error::CLMMError;
use crate::price_math::{
    floor_sqrt, is_tick_of, price_to_sqrt_price_x64, sqrt_price_x64_to_tick, tick_at_sqrt_price,
    MAX_SQRT_PRICE_X64, MIN_SQRT_PRICE_X64, Q64,
};
use crate::state::Pool;
use vstd::prelude::*;

verus! {

/// What the creation of a pool is given: the identifiers of its two
/// assets.
#[derive(Clone, Copy, Debug, PartialEq, Eq)]
pub struct InitializePool {
    /// The identifier of asset A.
    pub minta: [u8; 32],
    /// The identifier of asset B.
    pub mintb: [u8; 32],
}

/// The square-root price at which a pool of the given price starts.
pub open spec fn initial_sqrt_price(price: u64) -> nat {
    floor_sqrt(price as nat) * (Q64 as nat)
}

impl InitializePool {
    /// Creates a pool at `price`, the price of asset A in units of asset B.
    ///
    /// The pool starts at the square root of the price, rounded down to a
    /// whole number and scaled to Q64.64, and at the tick of that
    /// square-root price, with no liquidity and no LP shares.
    ///
    /// Fails with `ZeroAmount` for a price of zero and with
    /// `SqrtPriceOutOfRange` for a price of `2^32` or more, whose square
    /// root lies above the price of `MAX_TICK`; every price between has a
    /// pool.
    pub fn initializepool(&self, price: u64) -> (result: Result<Pool, CLMMError>)
        ensures
            price == 0 ==> result == Err::<Pool, CLMMError>(CLMMError::ZeroAmount),
            price >= 0x1_0000_0000 ==> result == Err::<Pool, CLMMError>(
                CLMMError::SqrtPriceOutOfRange,
            ),
            0 < price < 0x1_0000_0000 ==> result.is_ok(),
            price != 0 ==> match tick_at_sqrt_price(initial_sqrt_price(price)) {
                Ok(current_tick) => result == Ok::<Pool, CLMMError>(
                    (Pool {
                        minta: self.minta,
                        mintb: self.mintb,
                        sqrt_price: initial_sqrt_price(price) as u128,
                        active_liquidity: 0,
                        total_lp_issued: 0,
                        current_tick: current_tick as i32,
                    }),
                ) && result.unwrap().wf() && is_tick_of(
                    current_tick,
                    initial_sqrt_price(price),
                ),
                Err(e) => result == Err::<Pool, CLMMError>(e),
            },
    {
        let curr_sqrt_price: u128 = match price_to_sqrt_price_x64(price) {
            Ok(sqrt_price) => sqrt_price,
            Err(e) => { return Err(e); },
        };
        proof {
            let root = floor_sqrt(price as nat);
            if price >= 0x1_0000_0000 {
                assert(root >= 0x1_0000) by (nonlinear_arith)
                    requires
                        price < (root + 1) * (root + 1),
                        price >= 0x1_0000_0000,
                ;
                assert(root * Q64 >= MAX_SQRT_PRICE_X64) by (nonlinear_arith)
                    requires
                        root >= 0x1_0000,
                        Q64 == 0x1_0000_0000_0000_0000,
                        MAX_SQRT_PRICE_X64 == 1208914459397188474801738,
                ;
            } else if price > 0 {
                assert(1 <= root < 0x1_0000) by (nonlinear_arith)
                    requires
                        root * root <= price,
                        price < (root + 1) * (root + 1),
                        0 < price < 0x1_0000_0000,
                ;
                assert(MIN_SQRT_PRICE_X64 <= root * Q64 < MAX_SQRT_PRICE_X64) by (nonlinear_arith)
                    requires
                        1 <= root < 0x1_0000,
                        Q64 == 0x1_0000_0000_0000_0000,
                        MAX_SQRT_PRICE_X64 == 1208914459397188474801738,
                        MIN_SQRT_PRICE_X64 == 281477621742250,
                ;
            }
        }
        let current_tick: i32 = match sqrt_price_x64_to_tick(curr_sqrt_price) {
            Ok(index) => index,
            Err(e) => { return Err(e); },
        };
        Ok(
            Pool {
                minta: self.minta,
                mintb: self.mintb,
                sqrt_price: curr_sqrt_price,
                active_liquidity: 0,
                total_lp_issued: 0,
                current_tick,
            },
        )
    }
}

} // verus!
