//! Registration of a tick boundary.

use crate::error::CLMMError;
use crate::price_math::{sqrt_price_at_tick, tick_to_sqrt_price_x64, MAX_TICK, MIN_TICK};
use crate::state::{aligned, is_aligned, tick};
use vstd::prelude::*;

verus! {

/// The record of a tick that is about to be registered: only its index is
/// read.
#[derive(Clone, Copy, Debug, PartialEq, Eq, Structural)]
pub struct InitialTick {
    /// The tick record to fill.
    pub tick: tick,
}

/// What the registration of the tick `index` fills in, or the error with
/// which it fails: an index that is not a multiple of the tick spacing is
/// refused first, then one that converts to no price.
pub open spec fn new_tick_outcome(index: i32) -> Result<tick, CLMMError> {
    if !aligned(index as int) {
        Err(CLMMError::UnalignedTick)
    } else if !(MIN_TICK <= index <= MAX_TICK) {
        Err(CLMMError::TickOutOfRange)
    } else {
        Ok(tick { sqrt_price_x64: sqrt_price_at_tick(index as int) as u128, liquidity: 0, index })
    }
}

impl InitialTick {
    /// Fills in the record of a new tick: the square-root price of its
    /// index, and no liquidity.
    ///
    /// An index that is not a multiple of the tick spacing is refused with
    /// `UnalignedTick`, an aligned one outside `MIN_TICK ..= MAX_TICK` with
    /// `TickOutOfRange`; the record is then left as it was.
    pub fn initializetick(&mut self) -> (result: Result<(), CLMMError>)
        ensures
            match new_tick_outcome(old(self).tick.index) {
                Ok(filled) => result == Ok::<(), CLMMError>(()) && final(self).tick == filled
                    && filled.wf(),
                Err(e) => result == Err::<(), CLMMError>(e) && *final(self) == *old(self),
            },
    {
        if !is_aligned(self.tick.index) {
            return Err(CLMMError::UnalignedTick);
        }
        match tick_to_sqrt_price_x64(self.tick.index) {
            Ok(sqrt_price_x64) => {
                self.tick.sqrt_price_x64 = sqrt_price_x64;
                self.tick.liquidity = 0;
                Ok(())
            },
            Err(e) => Err(e),
        }
    }
}

} // verus!
