//! The order of the tick prices: a higher tick has a higher price.

use crate::price_math::{
    apply_factors, floor_ratio, lemma_floor_ratio_falls, lemma_floor_ratio_table,
    lemma_scale_ordered, sqrt_price_at_tick, tick_factor, tick_ratio, MAX_SQRT_PRICE_X64, MAX_TICK,
    MIN_SQRT_PRICE_X64, MIN_TICK, Q64,
};
use vstd::arithmetic::power2::{lemma2_to64, lemma_pow2_unfold, pow2};
use vstd::prelude::*;

verus! {

/// `high` leads `low` by at least one part in 32768 of `low`, less `slack`.
///
/// Neighbouring ticks differ by about one part in 20000, which leaves room
/// for what the rounding of up to nineteen multiplications takes away.
pub open spec fn leads(high: nat, low: nat, slack: nat) -> bool {
    high * 32768 + slack * 32768 >= low * 32769
}

/// Scaling two ratios by the same factor costs their lead at most one unit
/// of slack.
proof fn lemma_scale_keeps_lead(high: nat, low: nat, slack: nat, i: nat)
    requires
        i < 19,
        leads(high, low, slack),
    ensures
        leads(
            high * tick_factor(i) / (Q64 as nat),
            low * tick_factor(i) / (Q64 as nat),
            slack + 1,
        ),
{
    let c = tick_factor(i) as int;
    let q = Q64 as int;
    let h = high as int;
    let l = low as int;
    let s = slack as int;
    let hp = h * c / q;
    let lp = l * c / q;
    assert(0 < c <= q);
    assert(hp * q > h * c - q && lp * q <= l * c) by (nonlinear_arith)
        requires
            hp == h * c / q,
            lp == l * c / q,
            q > 0,
    ;
    assert(c * (h * 32768) >= c * (l * 32769 - s * 32768)) by (nonlinear_arith)
        requires
            c > 0,
            h * 32768 + s * 32768 >= l * 32769,
    ;
    assert(q * (s * 32768) >= c * (s * 32768)) by (nonlinear_arith)
        requires
            0 < c <= q,
            s >= 0,
    ;
    assert((hp * 32768 + (s + 1) * 32768) * q >= (lp * 32769) * q) by (nonlinear_arith)
        requires
            hp * q > h * c - q,
            lp * q <= l * c,
            c * (h * 32768) >= c * (l * 32769 - s * 32768),
            q * (s * 32768) >= c * (s * 32768),
    ;
    assert(hp * 32768 + (s + 1) * 32768 >= lp * 32769) by (nonlinear_arith)
        requires
            (hp * 32768 + (s + 1) * 32768) * q >= (lp * 32769) * q,
            q > 0,
    ;
}

/// Applying the same bits to two ratios costs their lead at most one unit
/// of slack for every factor that is left.
proof fn lemma_apply_keeps_lead(bits: nat, i: nat, high: nat, low: nat, slack: nat)
    requires
        i <= 19,
        leads(high, low, slack),
    ensures
        leads(
            apply_factors(bits, i, high),
            apply_factors(bits, i, low),
            (slack + 19 - i) as nat,
        ),
    decreases 19 - i,
{
    if i < 19 {
        if bits % 2 == 1 {
            lemma_scale_keeps_lead(high, low, slack, i);
            lemma_apply_keeps_lead(
                bits / 2,
                i + 1,
                high * tick_factor(i) / (Q64 as nat),
                low * tick_factor(i) / (Q64 as nat),
                slack + 1,
            );
        } else {
            lemma_apply_keeps_lead(bits / 2, i + 1, high, low, slack + 1);
        }
    }
}

/// A ratio that starts at or above the floor of its position ends at or
/// above the floor of the whole table.
proof fn lemma_apply_floor(bits: nat, i: nat, ratio: nat)
    requires
        i <= 19,
        ratio >= floor_ratio(i),
    ensures
        apply_factors(bits, i, ratio) >= floor_ratio(19),
    decreases 19 - i,
{
    if i < 19 {
        lemma_floor_ratio_falls(i);
        if bits % 2 == 1 {
            lemma_scale_ordered(floor_ratio(i), ratio, i);
            lemma_apply_floor(bits / 2, i + 1, ratio * tick_factor(i) / (Q64 as nat));
        } else {
            lemma_apply_floor(bits / 2, i + 1, ratio);
        }
    }
}

/// Applying factors never raises a ratio.
pub proof fn lemma_apply_ceiling(bits: nat, i: nat, ratio: nat)
    ensures
        apply_factors(bits, i, ratio) <= ratio,
    decreases 19 - i,
{
    if i < 19 {
        if bits % 2 == 1 {
            lemma_scale_ordered(ratio, ratio, i);
            lemma_apply_ceiling(bits / 2, i + 1, ratio * tick_factor(i) / (Q64 as nat));
        } else {
            lemma_apply_ceiling(bits / 2, i + 1, ratio);
        }
    }
}

/// With no bit set, no factor applies.
pub proof fn lemma_apply_no_bits(i: nat, ratio: nat)
    ensures
        apply_factors(0, i, ratio) == ratio,
    decreases 19 - i,
{
    if i < 19 {
        lemma_apply_no_bits(i + 1, ratio);
    }
}

/// The ratio to which all factors below `i` bring `2^64` leads factor `i`
/// itself: setting bit `i` alone costs more than setting every bit below
/// it.
proof fn lemma_floor_leads_factor(i: nat)
    requires
        i < 19,
    ensures
        leads(floor_ratio(i), tick_factor(i), 0),
        floor_ratio(i) <= Q64,
        tick_factor(i) >= floor_ratio(i + 1),
{
    lemma_floor_ratio_table();
    lemma_scale_ordered(floor_ratio(i), Q64 as nat, i);
    assert((Q64 as nat) * tick_factor(i) / (Q64 as nat) == tick_factor(i)) by (nonlinear_arith);
    if i == 0 {
        assert(0x10000000000000000 * 32768 >= 0xfffcb933bd6fb800 * 32769);
    } else if i == 1 {
        assert(0xfffcb933bd6fb800 * 32768 >= 0xfff97272373d4000 * 32769);
    } else if i == 2 {
        assert(0xfff62bbb6d459859 * 32768 >= 0xfff2e50f5f657000 * 32769);
    } else if i == 3 {
        assert(0xffe9114b9cf29d9a * 32768 >= 0xffe5caca7e10f000 * 32769);
    } else if i == 4 {
        assert(0xffcede6f1d8c0483 * 32768 >= 0xffcb9843d60f7000 * 32769);
    } else if i == 5 {
        assert(0xff9a80c1ada77220 * 32768 >= 0xff973b41fa98e800 * 32769);
    } else if i == 6 {
        assert(0xff31e58d5a5419c2 * 32768 >= 0xff2ea16466c9b000 * 32769);
    } else if i == 7 {
        assert(0xfe612f8183b280e0 * 32768 >= 0xfe5dee046a9a3800 * 32769);
    } else if i == 8 {
        assert(0xfcc1c2f3805495f4 * 32768 >= 0xfcbe86c7900bb000 * 32769);
    } else if i == 9 {
        assert(0xf98ad8c8d7ef0a9a * 32768 >= 0xf987a7253ac65800 * 32769);
    } else if i == 10 {
        assert(0xf33c480189b8868b * 32768 >= 0xf3392b0822bb6000 * 32769);
    } else if i == 11 {
        assert(0xe71889a8590c5dc9 * 32768 >= 0xe7159475a2caf000 * 32769);
    } else if i == 12 {
        assert(0xd09a9f3e93ea6d30 * 32768 >= 0xd097f3bdfd2f2000 * 32769);
    } else if i == 13 {
        assert(0xa9f973345bb6e56f * 32768 >= 0xa9f746462d9f8000 * 32769);
    } else if i == 14 {
        assert(0x70d9db648610cc7e * 32768 >= 0x70d869a156f31c00 * 32769);
    } else if i == 15 {
        assert(0x31beb65d91cc07af * 32768 >= 0x31be135f97ed3200 * 32769);
    } else if i == 16 {
        assert(0x9aa7036fd2e7648 * 32768 >= 0x9aa508b5b85a500 * 32769);
    } else if i == 17 {
        assert(0x5d6c2af97b81a7 * 32768 >= 0x5d6af8dedc582c * 32769);
    } else if i == 18 {
        assert(0x221755388b03 * 32768 >= 0x2216e584f5fa * 32769);
    }
}

/// The ratios of two neighbouring numbers, seen from bit `i` upward while
/// every bit below `i` of the smaller number is set: the smaller number
/// keeps its lead.
proof fn lemma_successor_leads(number: nat, i: nat)
    requires
        i <= 19,
        number + 1 < pow2((19 - i) as nat),
    ensures
        leads(
            apply_factors(number, i, floor_ratio(i)),
            apply_factors(number + 1, i, Q64 as nat),
            19,
        ),
        apply_factors(number + 1, i, Q64 as nat) >= floor_ratio(19),
    decreases 19 - i,
{
    lemma2_to64();
    if i < 19 {
        lemma_pow2_unfold((19 - i) as nat);
        let q = Q64 as nat;
        if number % 2 == 0 {
            assert((number + 1) % 2 == 1 && (number + 1) / 2 == number / 2);
            assert(q * tick_factor(i) / q == tick_factor(i)) by (nonlinear_arith)
                requires
                    q > 0,
            ;
            lemma_floor_leads_factor(i);
            lemma_apply_keeps_lead(number / 2, i + 1, floor_ratio(i), tick_factor(i), 0);
            lemma_apply_floor(number / 2, i + 1, tick_factor(i));
        } else {
            assert((number + 1) % 2 == 0 && (number + 1) / 2 == number / 2 + 1);
            lemma_successor_leads(number / 2, i + 1);
        }
    }
}

/// The ratio of a number is above the ratio of the next.
proof fn lemma_ratio_falls_by_one(number: nat)
    requires
        number + 1 < 524288,
    ensures
        tick_ratio(number) > tick_ratio(number + 1) >= 76162531,
{
    lemma2_to64();
    lemma_floor_ratio_table();
    lemma_successor_leads(number, 0);
}

/// The ratio falls as the number rises.
pub proof fn lemma_ratio_falls(low: nat, high: nat)
    requires
        low < high < 524288,
    ensures
        tick_ratio(low) > tick_ratio(high) >= 76162531,
    decreases high - low,
{
    lemma_ratio_falls_by_one((high - 1) as nat);
    if low + 1 < high {
        lemma_ratio_falls(low, (high - 1) as nat);
    }
}

/// A ratio lies between the floor of the table and one.
pub proof fn lemma_ratio_bounds(number: nat)
    ensures
        76162531 <= tick_ratio(number) <= Q64,
{
    lemma_floor_ratio_table();
    lemma_apply_floor(number, 0, Q64 as nat);
    lemma_apply_ceiling(number, 0, Q64 as nat);
}

/// Of two ratios, the smaller has the larger inverse.
proof fn lemma_inverse_rises(high: nat, low: nat)
    requires
        1 <= low < high <= Q64,
    ensures
        (u128::MAX as nat) / low > (u128::MAX as nat) / high,
{
    let u = u128::MAX as int;
    let x = high as int;
    let y = low as int;
    let q = u / x;
    assert(q * x <= u && q >= 0x1_0000_0000_0000_0000 - 1) by (nonlinear_arith)
        requires
            q == u / x,
            1 <= x <= 0x1_0000_0000_0000_0000,
            u == 0xffff_ffff_ffff_ffff_ffff_ffff_ffff_ffff,
    ;
    assert((q + 1) * y <= u) by (nonlinear_arith)
        requires
            q * x <= u,
            q >= 0x1_0000_0000_0000_0000 - 1,
            1 <= y <= x - 1,
            x <= 0x1_0000_0000_0000_0000,
    ;
    assert(u / y >= q + 1) by (nonlinear_arith)
        requires
            (q + 1) * y <= u,
            y >= 1,
    ;
}

/// One step of [`apply_factors`] on given numbers.
proof fn lemma_apply_step(bits: nat, i: nat, ratio: nat, next_bits: nat, next_ratio: nat)
    requires
        i < 19,
        next_bits == bits / 2,
        next_ratio == if bits % 2 == 1 {
            ratio * tick_factor(i) / 0x1_0000_0000_0000_0000
        } else {
            ratio
        },
    ensures
        apply_factors(bits, i, ratio) == apply_factors(next_bits, i + 1, next_ratio),
{
}

/// The ratio of the largest tick.
pub proof fn lemma_ratio_of_max_tick()
    ensures
        tick_ratio(221818) == 281477621742250,
{
    lemma_apply_step(221818, 0, 0x10000000000000000, 110909, 0x10000000000000000);
    lemma_apply_step(110909, 1, 0x10000000000000000, 55454, 0xfff97272373d4000);
    lemma_apply_step(55454, 2, 0xfff97272373d4000, 27727, 0xfff97272373d4000);
    lemma_apply_step(27727, 3, 0xfff97272373d4000, 13863, 0xffdf3de872619025);
    lemma_apply_step(13863, 4, 0xffdf3de872619025, 6931, 0xffaadce0fb652578);
    lemma_apply_step(6931, 5, 0xffaadce0fb652578, 3465, 0xff423afaa8ad88e5);
    lemma_apply_step(3465, 6, 0xff423afaa8ad88e5, 1732, 0xfe7177930a835687);
    lemma_apply_step(1732, 7, 0xfe7177930a835687, 866, 0xfe7177930a835687);
    lemma_apply_step(866, 8, 0xfe7177930a835687, 433, 0xfe7177930a835687);
    lemma_apply_step(433, 9, 0xfe7177930a835687, 216, 0xf8033145199656d8);
    lemma_apply_step(216, 10, 0xf8033145199656d8, 108, 0xf8033145199656d8);
    lemma_apply_step(108, 11, 0xf8033145199656d8, 54, 0xf8033145199656d8);
    lemma_apply_step(54, 12, 0xf8033145199656d8, 27, 0xf8033145199656d8);
    lemma_apply_step(27, 13, 0xf8033145199656d8, 13, 0xa4a9aab0041b62ec);
    lemma_apply_step(13, 14, 0xa4a9aab0041b62ec, 6, 0x48956dc663f35b2b);
    lemma_apply_step(6, 15, 0x48956dc663f35b2b, 3, 0x48956dc663f35b2b);
    lemma_apply_step(3, 16, 0x48956dc663f35b2b, 1, 0x2bd8aed14a58a33);
    lemma_apply_step(1, 17, 0x2bd8aed14a58a33, 0, 0x100009da7faaa);
    lemma_apply_step(0, 18, 0x100009da7faaa, 0, 0x100009da7faaa);
}

/// Tick zero stands for the price one.
pub proof fn lemma_sqrt_price_at_tick_zero()
    ensures
        sqrt_price_at_tick(0) == Q64,
{
    lemma_apply_no_bits(0, Q64 as nat);
}

/// The square-root price rises strictly with the tick, over all ticks that
/// convert to a price.
pub proof fn lemma_sqrt_price_strictly_increasing(lower: int, upper: int)
    requires
        MIN_TICK <= lower < upper <= MAX_TICK,
    ensures
        sqrt_price_at_tick(lower) < sqrt_price_at_tick(upper),
{
    if upper <= 0 {
        lemma_ratio_falls((-upper) as nat, (-lower) as nat);
    } else if lower > 0 {
        lemma_ratio_falls(lower as nat, upper as nat);
        lemma_ratio_bounds(lower as nat);
        lemma_inverse_rises(tick_ratio(lower as nat), tick_ratio(upper as nat));
    } else {
        lemma_ratio_bounds((-lower) as nat);
        lemma_ratio_bounds(upper as nat);
        lemma_apply_step(1, 0, Q64 as nat, 0, 0xfffcb933bd6fb800);
        lemma_apply_no_bits(1, 0xfffcb933bd6fb800);
        if upper > 1 {
            lemma_ratio_falls(1, upper as nat);
        }
        let ratio = tick_ratio(upper as nat) as int;
        let whole = u128::MAX as int;
        assert(whole / ratio > 0x1_0000_0000_0000_0000) by (nonlinear_arith)
            requires
                1 <= ratio <= 0xfffcb933bd6fb800,
                whole == 0xffff_ffff_ffff_ffff_ffff_ffff_ffff_ffff,
        ;
    }
}

/// The square-root price of every tick that converts to a price lies
/// inside the bounds on square-root prices, which are the price of the
/// lowest tick and one more than the price of the highest.
pub proof fn lemma_sqrt_price_in_bounds(tick: int)
    requires
        MIN_TICK <= tick <= MAX_TICK,
    ensures
        MIN_SQRT_PRICE_X64 <= sqrt_price_at_tick(tick) < MAX_SQRT_PRICE_X64,
        sqrt_price_at_tick(MIN_TICK as int) == MIN_SQRT_PRICE_X64,
        sqrt_price_at_tick(MAX_TICK as int) == MAX_SQRT_PRICE_X64 - 1,
{
    lemma_ratio_of_max_tick();
    assert(0xffff_ffff_ffff_ffff_ffff_ffff_ffff_ffffint / 281477621742250
        == 1208914459397188474801737);
    if tick > MIN_TICK {
        lemma_sqrt_price_strictly_increasing(MIN_TICK as int, tick);
    }
    if tick < MAX_TICK {
        lemma_sqrt_price_strictly_increasing(tick, MAX_TICK as int);
    }
}

} // verus!
