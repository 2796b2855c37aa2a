//! The records that the engine reads and updates.

use crate::price_math::{
    sqrt_price_at_tick, MAX_SQRT_PRICE_X64, MAX_TICK, MIN_SQRT_PRICE_X64, MIN_TICK, TICK_SPACING,
};
use vstd::prelude::*;

verus! {

/// The state of one pool of two assets, A and B.
#[derive(Clone, Copy, Debug, PartialEq, Eq)]
pub struct Pool {
    /// The identifier of asset A.
    pub minta: [u8; 32],
    /// The identifier of asset B.
    pub mintb: [u8; 32],
    /// The current price of A in units of B, as a square root in Q64.64.
    pub sqrt_price: u128,
    /// The liquidity of all positions whose range holds `current_tick`.
    pub active_liquidity: u128,
    /// The LP shares that are outstanding.
    pub total_lp_issued: u64,
    /// The tick boundary that the price crossed last.
    pub current_tick: i32,
}

/// One price boundary to which at least one position refers.
#[allow(non_camel_case_types)]
#[derive(Clone, Copy, Debug, PartialEq, Eq, Structural)]
pub struct tick {
    /// The square-root price of `index`, kept beside it.
    pub sqrt_price_x64: u128,
    /// The net liquidity that becomes active when the price rises across
    /// this boundary, and inactive when it falls across it.
    pub liquidity: i128,
    /// The tick index, a multiple of the tick spacing.
    pub index: i32,
}

/// What an operation on a position asks of the custody of the assets: the
/// two amounts to move and the LP shares to mint or burn.
#[derive(Clone, Copy, Debug, PartialEq, Eq, Structural)]
pub struct Settlement {
    /// The amount of asset A to move.
    pub amount_a: u64,
    /// The amount of asset B to move.
    pub amount_b: u64,
    /// The LP shares to mint on a deposit, to burn on a withdrawal.
    pub lp_shares: u64,
}

/// `index` is a multiple of the tick spacing.
pub open spec fn aligned(index: int) -> bool {
    index % (TICK_SPACING as int) == 0
}

impl Pool {
    /// The price of a pool lies in the range of prices that convert to a
    /// tick.
    pub open spec fn wf(&self) -> bool {
        MIN_SQRT_PRICE_X64 <= self.sqrt_price < MAX_SQRT_PRICE_X64
    }
}

impl tick {
    /// The index of a tick is aligned and converts to a price, and the
    /// price kept beside it is that price.
    pub open spec fn wf(&self) -> bool {
        &&& aligned(self.index as int)
        &&& MIN_TICK <= self.index <= MAX_TICK
        &&& self.sqrt_price_x64 as nat == sqrt_price_at_tick(self.index as int)
    }
}

/// Whether a tick index is a multiple of the tick spacing.
pub fn is_aligned(index: i32) -> (yes: bool)
    ensures
        yes == aligned(index as int),
{
    index % TICK_SPACING == 0
}

/// Whether two asset identifiers are the same.
pub fn same_mint(left: &[u8; 32], right: &[u8; 32]) -> (same: bool)
    ensures
        same == (left@ == right@),
{
    let mut i: usize = 0;
    while i < 32
        invariant
            i <= 32,
            forall|j: int| 0 <= j < i ==> left@[j] == right@[j],
        decreases 32 - i,
    {
        if left[i] != right[i] {
            return false;
        }
        i = i + 1;
    }
    assert(left@ =~= right@);
    true
}

} // verus!
