//! Conversion between tick indices, prices and Q64.64 square-root prices.

use crate::error::CLMMError;
use vstd::arithmetic::power2::{
    lemma2_to64, lemma2_to64_rest, lemma_pow2_adds, lemma_pow2_pos, lemma_pow2_strictly_increases,
    lemma_pow2_unfold, pow2,
};
use vstd::bits::{lemma_u128_shr_is_div, lemma_u64_shl_is_mul};
use vstd::prelude::*;

verus! {

/// One in Q64.64 fixed point.
pub const Q64: u128 = 0x1_0000_0000_0000_0000;

/// Every registered tick index is a multiple of this.
pub const TICK_SPACING: i32 = 10;

/// The lowest tick index that converts to a square-root price.
pub const MIN_TICK: i32 = -221818;

/// The highest tick index that converts to a square-root price.
///
/// Engines of this kind are found with either of two tick bounds, 221818
/// and 443636. Here 221818 is the bound, and the only one: every tick of
/// a position and every boundary of a trade lies in
/// `MIN_TICK ..= MAX_TICK`, and the bounds on square-root prices below are
/// taken from it.
pub const MAX_TICK: i32 = 221818;

/// The lowest square-root price that converts to a tick: the price of
/// `MIN_TICK`.
pub const MIN_SQRT_PRICE_X64: u128 = 281477621742250;

/// The first square-root price above those that convert to a tick: one more
/// than the price of `MAX_TICK`, so that the prices from
/// `MIN_SQRT_PRICE_X64` up to, but not including, this one are those that
/// have a tick, the price of `MAX_TICK` among them.
pub const MAX_SQRT_PRICE_X64: u128 = 1208914459397188474801738;

/// `root` is the integer square root of `value`, rounded down.
pub open spec fn is_floor_sqrt(value: nat, root: nat) -> bool {
    root * root <= value < (root + 1) * (root + 1)
}

/// The integer square root of `value`, rounded down.
pub open spec fn floor_sqrt(value: nat) -> nat {
    choose|root: nat| is_floor_sqrt(value, root)
}

/// A number has at most one rounded-down square root, so any `root` that
/// satisfies [`is_floor_sqrt`] is [`floor_sqrt`].
pub proof fn lemma_floor_sqrt_unique(value: nat, root: nat)
    requires
        is_floor_sqrt(value, root),
    ensures
        floor_sqrt(value) == root,
{
    let other = floor_sqrt(value);
    assert(is_floor_sqrt(value, other));
    if other < root {
        assert((other + 1) * (other + 1) <= root * root) by (nonlinear_arith)
            requires
                other + 1 <= root,
        ;
    }
    if root < other {
        assert((root + 1) * (root + 1) <= other * other) by (nonlinear_arith)
            requires
                root + 1 <= other,
        ;
    }
}

/// One Newton step from an estimate that is not below the root gives an
/// estimate that is not below the root either.
proof fn lemma_newton_step(value: nat, x: nat)
    requires
        x >= 1,
    ensures
        value < ((x + value / x) / 2 + 1) * ((x + value / x) / 2 + 1),
{
    let q = value / x;
    let y = (x + q) / 2;
    assert(value < (q + 1) * x) by (nonlinear_arith)
        requires
            q == value / x,
            x >= 1,
    ;
    assert(2 * (y + 1) >= x + q + 1);
    assert(4 * ((y + 1) * (y + 1)) >= 4 * ((q + 1) * x)) by (nonlinear_arith)
        requires
            2 * (y + 1) >= x + q + 1,
            x >= 1,
            q >= 0,
    {
        assert((x + q + 1) * (x + q + 1) - 4 * ((q + 1) * x) == (x - q - 1) * (x - q - 1));
        assert((x - q - 1) * (x - q - 1) >= 0);
        assert((2 * (y + 1)) * (2 * (y + 1)) >= (x + q + 1) * (x + q + 1));
    }
}

/// While the estimate is not below the root, the next Newton step cannot
/// overflow.
proof fn lemma_newton_sum_fits(value: u128, x: u128)
    requires
        1 <= x <= 0x8000_0000_0000_0000_0000_0000_0000_0000,
        value < (x + 1) * (x + 1),
    ensures
        x + value / x <= u128::MAX,
{
    let q = value / x;
    assert(q * x <= value) by (nonlinear_arith)
        requires
            q == value / x,
            x >= 1,
    ;
    if x >= 0x1_0000_0000_0000_0000 {
        assert(q < 0x1_0000_0000_0000_0000) by (nonlinear_arith)
            requires
                q * x <= value,
                value <= u128::MAX,
                x >= 0x1_0000_0000_0000_0000,
        ;
    } else {
        assert(q <= x + 2) by (nonlinear_arith)
            requires
                q * x <= value,
                value < (x + 1) * (x + 1),
                x >= 1,
        ;
    }
}

/// Integer square root by Newton's method: the largest `root` whose square
/// does not exceed `value`.
pub fn integer_sqrt(value: u128) -> (root: u64)
    ensures
        is_floor_sqrt(value as nat, root as nat),
        root as nat == floor_sqrt(value as nat),
{
    if value == 0 {
        proof {
            lemma_floor_sqrt_unique(0, 0);
        }
        return 0;
    }
    let mut x: u128 = value;
    let mut y: u128 = (value - 1) / 2 + 1;
    proof {
        assert(value / value == 1) by (nonlinear_arith)
            requires
                value >= 1,
        ;
        assert(value < (value + 1) * (value + 1)) by (nonlinear_arith)
            requires
                value >= 1,
        ;
        lemma_newton_step(value as nat, value as nat);
    }
    while y < x
        invariant
            1 <= x <= value,
            1 <= y <= 0x8000_0000_0000_0000_0000_0000_0000_0000,
            y == (x + value / x) / 2,
            value < (x + 1) * (x + 1),
            value < (y + 1) * (y + 1),
        decreases x,
    {
        x = y;
        proof {
            lemma_newton_sum_fits(value, x);
            lemma_newton_step(value as nat, x as nat);
            assert(value / x >= 1) by (nonlinear_arith)
                requires
                    1 <= x <= value,
            ;
        }
        y = (x + value / x) / 2;
    }
    proof {
        let q = value / x;
        assert(q >= x);
        assert(x * x <= value) by (nonlinear_arith)
            requires
                q >= x,
                q == value / x,
                x >= 1,
        ;
        assert(x < 0x1_0000_0000_0000_0000) by (nonlinear_arith)
            requires
                x * x <= value,
                value <= u128::MAX,
        ;
        lemma_floor_sqrt_unique(value as nat, x as nat);
    }
    x as u64
}

/// Converts a price to its square root in Q64.64.
///
/// A zero price is refused. Otherwise the result is the integer square
/// root of `price`, rounded down, scaled by `2^64`; since the root of a
/// 64-bit number is below `2^32`, the scaling always fits.
pub fn price_to_sqrt_price_x64(price: u64) -> (result: Result<u128, CLMMError>)
    ensures
        price == 0 <==> result == Err::<u128, CLMMError>(CLMMError::ZeroAmount),
        price != 0 ==> result == Ok::<u128, CLMMError>(
            (floor_sqrt(price as nat) * Q64) as u128,
        ),
        price != 0 ==> floor_sqrt(price as nat) * Q64 <= u128::MAX,
        price != 0 ==> is_floor_sqrt(price as nat, floor_sqrt(price as nat)),
{
    if price == 0 {
        return Err(CLMMError::ZeroAmount);
    }
    let price_scaled: u128 = price as u128;
    let x: u64 = integer_sqrt(price_scaled);
    proof {
        assert(x < 0x1_0000_0000) by (nonlinear_arith)
            requires
                x * x <= price,
                price <= u64::MAX,
        ;
        assert(x * Q64 <= u128::MAX) by (nonlinear_arith)
            requires
                x < 0x1_0000_0000,
                Q64 == 0x1_0000_0000_0000_0000,
        ;
    }
    match (x as u128).checked_mul(Q64) {
        Some(sqrt_price_x64) => Ok(sqrt_price_x64),
        None => Err(CLMMError::ArithmeticOverflow),
    }
}

/// The table of the conversion: entry `i` is `1.0001^(-2^i / 2)` in Q64.64,
/// the factor by which bit `i` of `|tick|` scales the ratio.
pub open spec fn tick_factor(i: nat) -> nat {
    if i == 0 {
        0xfffcb933bd6fb800
    } else if i == 1 {
        0xfff97272373d4000
    } else if i == 2 {
        0xfff2e50f5f657000
    } else if i == 3 {
        0xffe5caca7e10f000
    } else if i == 4 {
        0xffcb9843d60f7000
    } else if i == 5 {
        0xff973b41fa98e800
    } else if i == 6 {
        0xff2ea16466c9b000
    } else if i == 7 {
        0xfe5dee046a9a3800
    } else if i == 8 {
        0xfcbe86c7900bb000
    } else if i == 9 {
        0xf987a7253ac65800
    } else if i == 10 {
        0xf3392b0822bb6000
    } else if i == 11 {
        0xe7159475a2caf000
    } else if i == 12 {
        0xd097f3bdfd2f2000
    } else if i == 13 {
        0xa9f746462d9f8000
    } else if i == 14 {
        0x70d869a156f31c00
    } else if i == 15 {
        0x31be135f97ed3200
    } else if i == 16 {
        0x9aa508b5b85a500
    } else if i == 17 {
        0x5d6af8dedc582c
    } else if i == 18 {
        0x2216e584f5fa
    } else {
        0x1_0000_0000_0000_0000
    }
}

/// The ratio after the bits of `bits` have been applied to `ratio`, lowest
/// bit first, where the lowest bit of `bits` selects factor `i`: every set
/// bit multiplies the ratio by its factor and drops the low 64 bits of the
/// product.
pub open spec fn apply_factors(bits: nat, i: nat, ratio: nat) -> nat
    decreases 19 - i,
{
    if i >= 19 {
        ratio
    } else if bits % 2 == 1 {
        apply_factors(bits / 2, i + 1, ratio * tick_factor(i) / (Q64 as nat))
    } else {
        apply_factors(bits / 2, i + 1, ratio)
    }
}

/// `1.0001^(-abs_tick / 2)` in Q64.64, as the table gives it.
pub open spec fn tick_ratio(abs_tick: nat) -> nat {
    apply_factors(abs_tick, 0, Q64 as nat)
}

/// The square-root price of `tick` in Q64.64: the table's ratio for ticks
/// at or below zero, and its inverse `(2^128 - 1) / ratio` above zero.
pub open spec fn sqrt_price_at_tick(tick: int) -> nat {
    if tick > 0 {
        (u128::MAX as nat) / tick_ratio(tick as nat)
    } else {
        tick_ratio((-tick) as nat)
    }
}

/// The ratio to which the first `i` factors bring `2^64` when all of them
/// apply: no ratio that has passed `i` factors is smaller.
pub open spec fn floor_ratio(i: nat) -> nat
    decreases i,
{
    if i == 0 {
        Q64 as nat
    } else {
        floor_ratio((i - 1) as nat) * tick_factor((i - 1) as nat) / (Q64 as nat)
    }
}

/// One step of [`floor_ratio`] on given numbers.
proof fn lemma_floor_ratio_step(i: nat, prev: nat, factor: nat, next: nat)
    requires
        floor_ratio(i) == prev,
        tick_factor(i) == factor,
        prev * factor / 0x1_0000_0000_0000_0000 == next,
    ensures
        floor_ratio(i + 1) == next,
{
}

/// The floor ratios, one by one. The last of them is the smallest ratio
/// that the table can produce.
pub proof fn lemma_floor_ratio_table()
    ensures
        floor_ratio(0) == 0x10000000000000000,
        floor_ratio(1) == 0xfffcb933bd6fb800,
        floor_ratio(2) == 0xfff62bbb6d459859,
        floor_ratio(3) == 0xffe9114b9cf29d9a,
        floor_ratio(4) == 0xffcede6f1d8c0483,
        floor_ratio(5) == 0xff9a80c1ada77220,
        floor_ratio(6) == 0xff31e58d5a5419c2,
        floor_ratio(7) == 0xfe612f8183b280e0,
        floor_ratio(8) == 0xfcc1c2f3805495f4,
        floor_ratio(9) == 0xf98ad8c8d7ef0a9a,
        floor_ratio(10) == 0xf33c480189b8868b,
        floor_ratio(11) == 0xe71889a8590c5dc9,
        floor_ratio(12) == 0xd09a9f3e93ea6d30,
        floor_ratio(13) == 0xa9f973345bb6e56f,
        floor_ratio(14) == 0x70d9db648610cc7e,
        floor_ratio(15) == 0x31beb65d91cc07af,
        floor_ratio(16) == 0x9aa7036fd2e7648,
        floor_ratio(17) == 0x5d6c2af97b81a7,
        floor_ratio(18) == 0x221755388b03,
        floor_ratio(19) == 0x48a25e3,
{
    lemma_floor_ratio_step(0, 0x10000000000000000, 0xfffcb933bd6fb800, 0xfffcb933bd6fb800);
    lemma_floor_ratio_step(1, 0xfffcb933bd6fb800, 0xfff97272373d4000, 0xfff62bbb6d459859);
    lemma_floor_ratio_step(2, 0xfff62bbb6d459859, 0xfff2e50f5f657000, 0xffe9114b9cf29d9a);
    lemma_floor_ratio_step(3, 0xffe9114b9cf29d9a, 0xffe5caca7e10f000, 0xffcede6f1d8c0483);
    lemma_floor_ratio_step(4, 0xffcede6f1d8c0483, 0xffcb9843d60f7000, 0xff9a80c1ada77220);
    lemma_floor_ratio_step(5, 0xff9a80c1ada77220, 0xff973b41fa98e800, 0xff31e58d5a5419c2);
    lemma_floor_ratio_step(6, 0xff31e58d5a5419c2, 0xff2ea16466c9b000, 0xfe612f8183b280e0);
    lemma_floor_ratio_step(7, 0xfe612f8183b280e0, 0xfe5dee046a9a3800, 0xfcc1c2f3805495f4);
    lemma_floor_ratio_step(8, 0xfcc1c2f3805495f4, 0xfcbe86c7900bb000, 0xf98ad8c8d7ef0a9a);
    lemma_floor_ratio_step(9, 0xf98ad8c8d7ef0a9a, 0xf987a7253ac65800, 0xf33c480189b8868b);
    lemma_floor_ratio_step(10, 0xf33c480189b8868b, 0xf3392b0822bb6000, 0xe71889a8590c5dc9);
    lemma_floor_ratio_step(11, 0xe71889a8590c5dc9, 0xe7159475a2caf000, 0xd09a9f3e93ea6d30);
    lemma_floor_ratio_step(12, 0xd09a9f3e93ea6d30, 0xd097f3bdfd2f2000, 0xa9f973345bb6e56f);
    lemma_floor_ratio_step(13, 0xa9f973345bb6e56f, 0xa9f746462d9f8000, 0x70d9db648610cc7e);
    lemma_floor_ratio_step(14, 0x70d9db648610cc7e, 0x70d869a156f31c00, 0x31beb65d91cc07af);
    lemma_floor_ratio_step(15, 0x31beb65d91cc07af, 0x31be135f97ed3200, 0x9aa7036fd2e7648);
    lemma_floor_ratio_step(16, 0x9aa7036fd2e7648, 0x9aa508b5b85a500, 0x5d6c2af97b81a7);
    lemma_floor_ratio_step(17, 0x5d6c2af97b81a7, 0x5d6af8dedc582c, 0x221755388b03);
    lemma_floor_ratio_step(18, 0x221755388b03, 0x2216e584f5fa, 0x48a25e3);
}

/// Scaling by a factor: the new ratio is no larger, and scaling keeps the
/// order of two ratios.
pub proof fn lemma_scale_ordered(low: nat, high: nat, i: nat)
    requires
        low <= high,
        i < 19,
    ensures
        high * tick_factor(i) / (Q64 as nat) <= high,
        low * tick_factor(i) / (Q64 as nat) <= high * tick_factor(i) / (Q64 as nat),
{
    let c = tick_factor(i);
    let q = Q64 as nat;
    assert(c < q);
    assert(high * c / q <= high) by (nonlinear_arith)
        requires
            c < q,
            q > 0,
    ;
    assert(low * c / q <= high * c / q) by (nonlinear_arith)
        requires
            low <= high,
            q > 0,
    ;
}

/// The floor ratios fall as more factors apply.
pub proof fn lemma_floor_ratio_falls(i: nat)
    requires
        i < 19,
    ensures
        floor_ratio(i + 1) <= floor_ratio(i),
{
    lemma_scale_ordered(floor_ratio(i), floor_ratio(i), i);
}

/// Entry `i` of the table.
fn tick_factor_at(i: u32) -> (factor: u128)
    requires
        i < 19,
    ensures
        factor == tick_factor(i as nat),
{
    if i == 0 {
        0xfffcb933bd6fb800
    } else if i == 1 {
        0xfff97272373d4000
    } else if i == 2 {
        0xfff2e50f5f657000
    } else if i == 3 {
        0xffe5caca7e10f000
    } else if i == 4 {
        0xffcb9843d60f7000
    } else if i == 5 {
        0xff973b41fa98e800
    } else if i == 6 {
        0xff2ea16466c9b000
    } else if i == 7 {
        0xfe5dee046a9a3800
    } else if i == 8 {
        0xfcbe86c7900bb000
    } else if i == 9 {
        0xf987a7253ac65800
    } else if i == 10 {
        0xf3392b0822bb6000
    } else if i == 11 {
        0xe7159475a2caf000
    } else if i == 12 {
        0xd097f3bdfd2f2000
    } else if i == 13 {
        0xa9f746462d9f8000
    } else if i == 14 {
        0x70d869a156f31c00
    } else if i == 15 {
        0x31be135f97ed3200
    } else if i == 16 {
        0x9aa508b5b85a500
    } else if i == 17 {
        0x5d6af8dedc582c
    } else {
        0x2216e584f5fa
    }
}

/// Converts a tick index to its square-root price in Q64.64.
///
/// Ticks outside `MIN_TICK ..= MAX_TICK` are refused. For the others the
/// ratio starts at `2^64` and takes one factor of the table for every set
/// bit of `|tick|`; a tick above zero gets the inverse of that ratio.
pub fn tick_to_sqrt_price_x64(tick: i32) -> (result: Result<u128, CLMMError>)
    ensures
        match result {
            Ok(sqrt_price_x64) => {
                &&& MIN_TICK <= tick <= MAX_TICK
                &&& sqrt_price_x64 as nat == sqrt_price_at_tick(tick as int)
            },
            Err(e) => {
                &&& !(MIN_TICK <= tick <= MAX_TICK)
                &&& e == CLMMError::TickOutOfRange
            },
        },
{
    if tick < MIN_TICK || tick > MAX_TICK {
        return Err(CLMMError::TickOutOfRange);
    }
    let abs_tick: u32 = if tick < 0 {
        (-tick) as u32
    } else {
        tick as u32
    };
    let mut ratio: u128 = Q64;
    let mut bits: u32 = abs_tick;
    let mut i: u32 = 0;
    while i < 19
        invariant
            i <= 19,
            floor_ratio(i as nat) <= ratio <= Q64,
            apply_factors(bits as nat, i as nat, ratio as nat) == tick_ratio(abs_tick as nat),
        decreases 19 - i,
    {
        proof {
            lemma_floor_ratio_falls(i as nat);
        }
        if bits % 2 == 1 {
            let factor: u128 = tick_factor_at(i);
            proof {
                lemma_scale_ordered(floor_ratio(i as nat), ratio as nat, i as nat);
                assert(ratio * factor <= u128::MAX) by (nonlinear_arith)
                    requires
                        ratio <= 0x1_0000_0000_0000_0000,
                        factor < 0x1_0000_0000_0000_0000,
                ;
            }
            let product: u128 = ratio * factor;
            assert(product >> 64 == product / 0x1_0000_0000_0000_0000) by (bit_vector);
            ratio = product >> 64;
        }
        bits = bits / 2;
        i = i + 1;
    }
    proof {
        lemma_floor_ratio_table();
    }
    if tick > 0 {
        ratio = u128::MAX / ratio;
    }
    Ok(ratio)
}

/// The position of the highest set bit of `x`: the integer part of its
/// binary logarithm.
pub open spec fn floor_log2(x: nat) -> nat
    decreases x,
{
    if x <= 1 {
        0
    } else {
        1 + floor_log2(x / 2)
    }
}

/// `x` with its highest set bit moved to position 63: the mantissa of `x`
/// in `[2^63, 2^64)`, with the bits that do not fit dropped.
pub open spec fn mantissa(x: nat) -> nat {
    let msb = floor_log2(x);
    if msb >= 64 {
        x / pow2((msb - 63) as nat)
    } else {
        x * pow2((63 - msb) as nat)
    }
}

/// `digits` followed by the next `steps` binary digits of the logarithm of
/// the mantissa `r`: each step squares the mantissa; a square of two or
/// more yields the digit one and is halved, a smaller one yields zero.
pub open spec fn log2_digits(r: nat, digits: nat, steps: nat) -> nat
    decreases steps,
{
    if steps == 0 {
        digits
    } else if r * r >= 0x8000_0000_0000_0000_0000_0000_0000_0000 {
        log2_digits(r * r / 0x1_0000_0000_0000_0000, 2 * digits + 1, (steps - 1) as nat)
    } else {
        log2_digits(r * r / 0x8000_0000_0000_0000, 2 * digits, (steps - 1) as nat)
    }
}

/// The binary logarithm of `sqrt_price_x64 / 2^64` in Q32.32, with sixteen
/// binary digits after the point.
pub open spec fn log2_x32(sqrt_price_x64: nat) -> int {
    (floor_log2(sqrt_price_x64) - 64) * 0x1_0000_0000 + log2_digits(
        mantissa(sqrt_price_x64),
        0,
        16,
    ) * 0x1_0000
}

/// The lower candidate tick: the logarithm to the base `sqrt(1.0001)`,
/// less a margin of 0.01, rounded down.
pub open spec fn tick_low(sqrt_price_x64: nat) -> int {
    (log2_x32(sqrt_price_x64) * 59543866431248 - 184467440737095516) / 0x1_0000_0000_0000_0000
}

/// The upper candidate tick: the same logarithm plus the error bound of
/// the sixteen digits and a margin of 0.01, rounded down.
pub open spec fn tick_high(sqrt_price_x64: nat) -> int {
    (log2_x32(sqrt_price_x64) * 59543866431248 + 15793534762490258745) / 0x1_0000_0000_0000_0000
}

/// The tick that the logarithm of a square-root price gives.
///
/// Prices outside `[MIN_SQRT_PRICE_X64, MAX_SQRT_PRICE_X64)` are refused.
/// Where the two candidates agree, that is the tick. Where they differ, the
/// upper one is converted back; it is the tick if its price does not exceed
/// the given one, and the lower candidate is the tick otherwise. The
/// conversion back would fail for a candidate beyond `MAX_TICK`, but inside
/// the bounds no candidate is: there this is [`tick_at_sqrt_price`].
pub open spec fn tick_by_logarithm(sqrt_price_x64: nat) -> Result<int, CLMMError> {
    let low = tick_low(sqrt_price_x64);
    let high = tick_high(sqrt_price_x64);
    if !(MIN_SQRT_PRICE_X64 <= sqrt_price_x64 < MAX_SQRT_PRICE_X64) {
        Err(CLMMError::SqrtPriceOutOfRange)
    } else if low == high {
        Ok(low)
    } else if !(MIN_TICK <= high <= MAX_TICK) {
        Err(CLMMError::TickOutOfRange)
    } else if sqrt_price_at_tick(high) <= sqrt_price_x64 {
        Ok(high)
    } else {
        Ok(low)
    }
}

/// `tick` is the tick of `sqrt_price_x64`: the price of the tick does not
/// exceed the given price, and the price of the next tick, if there is
/// one, does.
pub open spec fn is_tick_of(tick: int, sqrt_price_x64: nat) -> bool {
    &&& MIN_TICK <= tick <= MAX_TICK
    &&& sqrt_price_at_tick(tick) <= sqrt_price_x64
    &&& tick < MAX_TICK ==> sqrt_price_x64 < sqrt_price_at_tick(tick + 1)
}

/// The tick of a square-root price: the highest tick whose price does not
/// exceed it. Prices outside `[MIN_SQRT_PRICE_X64, MAX_SQRT_PRICE_X64)`
/// have none.
pub open spec fn tick_at_sqrt_price(sqrt_price_x64: nat) -> Result<int, CLMMError> {
    if MIN_SQRT_PRICE_X64 <= sqrt_price_x64 < MAX_SQRT_PRICE_X64 {
        Ok(choose|tick: int| is_tick_of(tick, sqrt_price_x64))
    } else {
        Err(CLMMError::SqrtPriceOutOfRange)
    }
}

/// A positive number lies between the power of two of its highest bit and
/// the next one.
pub proof fn lemma_floor_log2_bounds(x: nat)
    requires
        x >= 1,
    ensures
        pow2(floor_log2(x)) <= x < pow2(floor_log2(x) + 1),
    decreases x,
{
    lemma2_to64();
    if x > 1 {
        lemma_floor_log2_bounds(x / 2);
        lemma_pow2_unfold(floor_log2(x));
        lemma_pow2_unfold(floor_log2(x) + 1);
    }
}

/// The highest bit of a 128-bit number is at most bit 127.
proof fn lemma_floor_log2_u128(x: u128)
    requires
        x >= 1,
    ensures
        floor_log2(x as nat) <= 127,
{
    let msb = floor_log2(x as nat);
    lemma_floor_log2_bounds(x as nat);
    lemma2_to64();
    lemma_pow2_adds(64, 64);
    if msb >= 128 {
        if msb > 128 {
            lemma_pow2_strictly_increases(128, msb);
        }
    }
}

/// The mantissa of a positive number lies in `[2^63, 2^64)`.
pub proof fn lemma_mantissa_bounds(x: nat)
    requires
        x >= 1,
    ensures
        0x8000_0000_0000_0000 <= mantissa(x) < 0x1_0000_0000_0000_0000,
{
    let msb = floor_log2(x);
    lemma_floor_log2_bounds(x);
    lemma2_to64();
    lemma2_to64_rest();
    if msb >= 64 {
        let shift = (msb - 63) as nat;
        let divisor = pow2(shift);
        lemma_pow2_pos(shift);
        lemma_pow2_adds(63, shift);
        lemma_pow2_adds(64, shift);
        assert(0x8000_0000_0000_0000 <= x / divisor < 0x1_0000_0000_0000_0000)
            by (nonlinear_arith)
            requires
                divisor > 0,
                0x8000_0000_0000_0000 * divisor <= x < 0x1_0000_0000_0000_0000 * divisor,
        ;
    } else {
        let shift = (63 - msb) as nat;
        let factor = pow2(shift);
        lemma_pow2_pos(shift);
        lemma_pow2_adds(msb, shift);
        lemma_pow2_adds(msb + 1, shift);
        assert(pow2(msb) * factor <= x * factor < pow2(msb + 1) * factor) by (nonlinear_arith)
            requires
                factor > 0,
                pow2(msb) <= x < pow2(msb + 1),
        ;
    }
}

/// The two candidate ticks are equal or neighbours, the lower one first.
pub proof fn lemma_tick_candidates_adjacent(sqrt_price_x64: nat)
    ensures
        tick_low(sqrt_price_x64) <= tick_high(sqrt_price_x64) <= tick_low(sqrt_price_x64) + 1,
{
}

/// The position of the highest set bit of `x`.
fn most_significant_bit(x: u128) -> (msb: u32)
    requires
        x >= 1,
    ensures
        msb == floor_log2(x as nat),
        msb <= 127,
{
    proof {
        lemma_floor_log2_u128(x);
    }
    let mut rest: u128 = x;
    let mut msb: u32 = 0;
    while rest > 1
        invariant
            rest >= 1,
            msb + floor_log2(rest as nat) == floor_log2(x as nat),
            floor_log2(x as nat) <= 127,
        decreases rest,
    {
        rest = rest / 2;
        msb = msb + 1;
    }
    msb
}

/// The mantissa of `x`, given the position of its highest set bit.
fn mantissa_of(x: u128, msb: u32) -> (r: u128)
    requires
        x >= 1,
        msb == floor_log2(x as nat),
        msb <= 127,
    ensures
        r == mantissa(x as nat),
        0x8000_0000_0000_0000 <= r < 0x1_0000_0000_0000_0000,
{
    proof {
        lemma_mantissa_bounds(x as nat);
        lemma_floor_log2_bounds(x as nat);
        lemma2_to64();
    }
    if msb >= 64 {
        proof {
            lemma_u128_shr_is_div(x, (msb - 63) as u128);
        }
        x >> (msb - 63)
    } else {
        proof {
            if msb < 63 {
                lemma_pow2_strictly_increases((msb + 1) as nat, 64);
            }
            lemma_u64_shl_is_mul(x as u64, (63 - msb) as u64);
        }
        ((x as u64) << (63 - msb)) as u128
    }
}

/// Sixteen binary digits of the logarithm of the mantissa `r`.
fn log2_digits_of(r: u128) -> (digits: u128)
    requires
        0x8000_0000_0000_0000 <= r < 0x1_0000_0000_0000_0000,
    ensures
        digits == log2_digits(r as nat, 0, 16),
        digits < 0x1_0000,
{
    let ghost start: nat = r as nat;
    let mut r: u128 = r;
    let mut digits: u128 = 0;
    let mut precision: u32 = 0;
    proof {
        lemma2_to64();
    }
    while precision < 16
        invariant
            precision <= 16,
            0x8000_0000_0000_0000 <= r < 0x1_0000_0000_0000_0000,
            digits < pow2(precision as nat),
            log2_digits(r as nat, digits as nat, (16 - precision) as nat) == log2_digits(
                start,
                0,
                16,
            ),
        decreases 16 - precision,
    {
        proof {
            assert(0x4000_0000_0000_0000_0000_0000_0000_0000 <= r * r <= u128::MAX)
                by (nonlinear_arith)
                requires
                    0x8000_0000_0000_0000 <= r < 0x1_0000_0000_0000_0000,
            ;
            lemma_pow2_unfold((precision + 1) as nat);
            if precision < 15 {
                lemma_pow2_strictly_increases((precision + 1) as nat, 16);
            }
            lemma2_to64();
        }
        let square: u128 = r * r;
        if square >= 0x8000_0000_0000_0000_0000_0000_0000_0000 {
            assert(square >> 64u32 == square / 0x1_0000_0000_0000_0000) by (bit_vector);
            r = square >> 64u32;
            digits = 2 * digits + 1;
        } else {
            assert(square >> 63u32 == square / 0x8000_0000_0000_0000) by (bit_vector);
            r = square >> 63u32;
            digits = 2 * digits;
        }
        precision = precision + 1;
    }
    proof {
        lemma2_to64();
    }
    digits
}

/// Converts a square-root price in Q64.64 to its tick: the highest tick
/// whose own square-root price does not exceed the given one.
///
/// Prices outside `[MIN_SQRT_PRICE_X64, MAX_SQRT_PRICE_X64)` are refused
/// with `SqrtPriceOutOfRange`; every price inside has a tick, and there is
/// no other failure.
///
/// The binary logarithm of the price is taken as the position of the
/// highest set bit, for the integer part, and sixteen squarings of the
/// mantissa, for the fraction. Scaled to the base `sqrt(1.0001)` it gives
/// two candidate ticks, which are equal or neighbours; where they differ,
/// the upper one is the tick if its own square-root price does not exceed
/// the given one.
pub fn sqrt_price_x64_to_tick(sqrt_price_x64: u128) -> (result: Result<i32, CLMMError>)
    ensures
        match result {
            Ok(tick) => {
                &&& MIN_SQRT_PRICE_X64 <= sqrt_price_x64 < MAX_SQRT_PRICE_X64
                &&& is_tick_of(tick as int, sqrt_price_x64 as nat)
            },
            Err(e) => {
                &&& !(MIN_SQRT_PRICE_X64 <= sqrt_price_x64 < MAX_SQRT_PRICE_X64)
                &&& e == CLMMError::SqrtPriceOutOfRange
            },
        },
        match tick_at_sqrt_price(sqrt_price_x64 as nat) {
            Ok(tick) => result == Ok::<i32, CLMMError>(tick as i32),
            Err(e) => result == Err::<i32, CLMMError>(e),
        },
{
    proof {
        if MIN_SQRT_PRICE_X64 <= sqrt_price_x64 < MAX_SQRT_PRICE_X64 {
            crate::tick_of_price::lemma_price_converts_to_its_tick(sqrt_price_x64 as nat);
        }
    }
    if sqrt_price_x64 < MIN_SQRT_PRICE_X64 || sqrt_price_x64 >= MAX_SQRT_PRICE_X64 {
        return Err(CLMMError::SqrtPriceOutOfRange);
    }
    let msb: u32 = most_significant_bit(sqrt_price_x64);
    let r: u128 = mantissa_of(sqrt_price_x64, msb);
    let digits: u128 = log2_digits_of(r);
    let log2p_integer_x32: i128 = (msb as i128 - 64) * 0x1_0000_0000;
    let log2p_fraction_x32: i128 = (digits * 0x1_0000) as i128;
    let log2p_x32: i128 = log2p_integer_x32 + log2p_fraction_x32;
    let log_sqrt_10001_x64: i128 = log2p_x32 * 59543866431248i128;
    let low_x64: i128 = log_sqrt_10001_x64 - 184467440737095516i128;
    let high_x64: i128 = log_sqrt_10001_x64 + 15793534762490258745i128;
    assert(low_x64 >> 64u32 == low_x64 / 0x1_0000_0000_0000_0000) by (bit_vector);
    assert(high_x64 >> 64u32 == high_x64 / 0x1_0000_0000_0000_0000) by (bit_vector);
    let tick_low: i32 = (low_x64 >> 64u32) as i32;
    let tick_high: i32 = (high_x64 >> 64u32) as i32;
    if tick_low == tick_high {
        Ok(tick_low)
    } else {
        match tick_to_sqrt_price_x64(tick_high) {
            Ok(price_high) => if price_high <= sqrt_price_x64 {
                Ok(tick_high)
            } else {
                Ok(tick_low)
            },
            Err(e) => Err(e),
        }
    }
}

} // verus!
