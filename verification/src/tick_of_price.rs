//! The tick of a price: the conversion from prices is the inverse of the
//! conversion from ticks, rounded down, and what the logarithm computes is
//! that tick for every price inside the bounds.

use crate::error::CLMMError;
use crate::log_bounds::{
    lemma_digits_split, lemma_digits_unfold, lemma_next_mantissa, lemma_pow2_ordered, next_digit,
    next_mantissa,
};
use crate::price_math::{
    floor_log2, is_tick_of, lemma_floor_log2_bounds, lemma_mantissa_bounds, log2_digits, log2_x32,
    mantissa, sqrt_price_at_tick, tick_at_sqrt_price, tick_by_logarithm, tick_high, tick_low,
    MAX_SQRT_PRICE_X64, MAX_TICK, MIN_SQRT_PRICE_X64, MIN_TICK,
};
use crate::price_order::{lemma_sqrt_price_in_bounds, lemma_sqrt_price_strictly_increasing};
use crate::round_trip::{lemma_candidates_of_tick_price, lemma_logarithm_round_trip};
use vstd::arithmetic::power2::{lemma2_to64, lemma_pow2_pos, pow2};
use vstd::prelude::*;

verus! {

/// The larger mantissa has the larger digits.
pub proof fn lemma_digits_ordered(low: nat, high: nat, k: nat)
    requires
        0x8000_0000_0000_0000 <= low <= high < 0x1_0000_0000_0000_0000,
    ensures
        log2_digits(low, 0, k) <= log2_digits(high, 0, k),
    decreases k,
{
    if k > 0 {
        let rest = (k - 1) as nat;
        lemma_next_mantissa(low);
        lemma_next_mantissa(high);
        lemma_digits_unfold(low, k);
        lemma_digits_unfold(high, k);
        assert(low * low <= high * high) by (nonlinear_arith)
            requires
                low <= high,
        ;
        if next_digit(low) == next_digit(high) {
            lemma_digits_ordered(next_mantissa(low), next_mantissa(high), rest);
        } else {
            lemma_digits_split(next_mantissa(low), 0, rest);
            assert(1 * pow2(rest) == pow2(rest));
            assert(0 * pow2(rest) == 0);
        }
    }
}

/// The larger number has the higher bit.
pub proof fn lemma_floor_log2_ordered(low: nat, high: nat)
    requires
        1 <= low <= high,
    ensures
        floor_log2(low) <= floor_log2(high),
{
    lemma_floor_log2_bounds(low);
    lemma_floor_log2_bounds(high);
    if floor_log2(low) > floor_log2(high) {
        lemma_pow2_ordered(floor_log2(high) + 1, floor_log2(low));
    }
}

/// Of two numbers with the same highest bit, the larger has the larger
/// mantissa.
pub proof fn lemma_mantissa_ordered(low: nat, high: nat)
    requires
        1 <= low <= high,
        floor_log2(low) == floor_log2(high),
    ensures
        mantissa(low) <= mantissa(high),
{
    let msb = floor_log2(low);
    if msb >= 64 {
        let unit = pow2((msb - 63) as nat);
        lemma_pow2_pos((msb - 63) as nat);
        assert(low / unit <= high / unit) by (nonlinear_arith)
            requires
                low <= high,
                unit > 0,
        ;
    } else {
        let scale = pow2((63 - msb) as nat);
        assert(low * scale <= high * scale) by (nonlinear_arith)
            requires
                low <= high,
        ;
    }
}

/// The logarithm rises with the price.
pub proof fn lemma_log2_x32_ordered(low: nat, high: nat)
    requires
        1 <= low <= high,
    ensures
        log2_x32(low) <= log2_x32(high),
{
    lemma2_to64();
    lemma_floor_log2_ordered(low, high);
    lemma_mantissa_bounds(low);
    lemma_mantissa_bounds(high);
    if floor_log2(low) == floor_log2(high) {
        lemma_mantissa_ordered(low, high);
        lemma_digits_ordered(mantissa(low), mantissa(high), 16);
    } else {
        lemma_digits_split(mantissa(low), 0, 16);
    }
}

/// Both candidate ticks rise with the price.
pub proof fn lemma_candidates_ordered(low: nat, high: nat)
    requires
        1 <= low <= high,
    ensures
        tick_low(low) <= tick_low(high),
        tick_high(low) <= tick_high(high),
{
    lemma_log2_x32_ordered(low, high);
}

/// The logarithm of a price from the price of a tick up to the price of
/// the next tick gives that tick.
pub proof fn lemma_logarithm_gives_tick(price: nat, tick: int)
    requires
        MIN_TICK <= tick < MAX_TICK,
        sqrt_price_at_tick(tick) <= price < sqrt_price_at_tick(tick + 1),
    ensures
        tick_by_logarithm(price) == Ok::<int, CLMMError>(tick),
{
    lemma_sqrt_price_in_bounds(tick);
    lemma_sqrt_price_in_bounds(tick + 1);
    lemma_candidates_of_tick_price(tick);
    lemma_candidates_of_tick_price(tick + 1);
    lemma_candidates_ordered(sqrt_price_at_tick(tick), price);
    lemma_candidates_ordered(price, sqrt_price_at_tick(tick + 1));
}

/// Between two ticks whose prices enclose a price lies the tick whose own
/// price and whose successor's price enclose it.
proof fn lemma_enclosing_tick(price: nat, low: int, high: int) -> (tick: int)
    requires
        MIN_TICK <= low < high <= MAX_TICK,
        sqrt_price_at_tick(low) <= price < sqrt_price_at_tick(high),
    ensures
        low <= tick < high,
        sqrt_price_at_tick(tick) <= price < sqrt_price_at_tick(tick + 1),
    decreases high - low,
{
    if high == low + 1 {
        low
    } else if price < sqrt_price_at_tick(high - 1) {
        lemma_enclosing_tick(price, low, high - 1)
    } else {
        high - 1
    }
}

/// A price has at most one tick.
pub proof fn lemma_tick_of_price_unique(price: nat, first: int, second: int)
    requires
        is_tick_of(first, price),
        is_tick_of(second, price),
    ensures
        first == second,
{
    if first < second {
        if first + 1 < second {
            lemma_sqrt_price_strictly_increasing(first + 1, second);
        }
    }
    if second < first {
        if second + 1 < first {
            lemma_sqrt_price_strictly_increasing(second + 1, first);
        }
    }
}

/// Every price inside the bounds has a tick, and its logarithm gives it:
/// the conversion from prices inverts the conversion from ticks and rounds
/// down.
pub proof fn lemma_price_converts_to_its_tick(price: nat)
    requires
        MIN_SQRT_PRICE_X64 <= price < MAX_SQRT_PRICE_X64,
    ensures
        tick_at_sqrt_price(price).is_ok(),
        is_tick_of(tick_at_sqrt_price(price).unwrap(), price),
        tick_by_logarithm(price) == tick_at_sqrt_price(price),
{
    lemma_sqrt_price_in_bounds(0);
    let tick = if price == sqrt_price_at_tick(MAX_TICK as int) {
        lemma_logarithm_round_trip(MAX_TICK as int);
        MAX_TICK as int
    } else {
        let found = lemma_enclosing_tick(price, MIN_TICK as int, MAX_TICK as int);
        lemma_logarithm_gives_tick(price, found);
        found
    };
    assert(is_tick_of(tick, price));
    lemma_tick_of_price_unique(price, tick, tick_at_sqrt_price(price).unwrap());
}

/// The tick of a price from the price of a tick up to the price of the
/// next tick is that tick.
pub proof fn lemma_tick_of_price(price: nat, tick: int)
    requires
        is_tick_of(tick, price),
        price < MAX_SQRT_PRICE_X64,
    ensures
        tick_at_sqrt_price(price) == Ok::<int, CLMMError>(tick),
{
    lemma_sqrt_price_in_bounds(tick);
    lemma_tick_of_price_unique(price, tick, tick_at_sqrt_price(price).unwrap());
}

/// The conversion of a tick to its price and back gives the tick again,
/// for every tick that converts to a price.
pub proof fn lemma_round_trip(tick: int)
    requires
        MIN_TICK <= tick <= MAX_TICK,
    ensures
        tick_at_sqrt_price(sqrt_price_at_tick(tick)) == Ok::<int, CLMMError>(tick),
        tick_by_logarithm(sqrt_price_at_tick(tick)) == Ok::<int, CLMMError>(tick),
{
    lemma_logarithm_round_trip(tick);
    lemma_sqrt_price_in_bounds(tick);
    if tick < MAX_TICK {
        lemma_sqrt_price_strictly_increasing(tick, tick + 1);
    }
    lemma_tick_of_price(sqrt_price_at_tick(tick), tick);
}

} // verus!
