//! The way back: the logarithm of the price of a tick gives that tick.
//!
//! The proof compares powers. Squared 26 times, a price lies between two
//! powers of two that its logarithm digits name, and so does every factor
//! of the table. The factors of a tick multiply to its price, so their
//! exponents add up to the exponent of the price, within margins that the
//! rounding of each step and of each digit leaves; and the margins are
//! narrower than the gaps between the two candidates of a tick and their
//! neighbours.

use crate::error::CLMMError;
use crate::log_bounds::{
    lemma_floor_log2_is, lemma_number_digits, lemma_pow2_exponent_below, lemma_pow2_ordered,
    lemma_sq_pow_of_pow2, lemma_sq_pow_of_product, lemma_sq_pow_of_successor, lemma_sq_pow_ordered,
    lemma_sq_pow_strictly_ordered, lemma_sq_pow_twice, sq_pow,
};
use crate::price_math::{
    apply_factors, floor_log2, log2_digits, log2_x32, mantissa, sqrt_price_at_tick,
    tick_by_logarithm, tick_factor, tick_high, tick_low, tick_ratio, MAX_TICK, MIN_TICK, Q64,
};
use crate::price_order::{
    lemma_apply_ceiling, lemma_apply_no_bits, lemma_ratio_bounds, lemma_ratio_falls,
    lemma_ratio_of_max_tick, lemma_sqrt_price_in_bounds,
};
use vstd::arithmetic::power2::{
    lemma2_to64, lemma2_to64_rest, lemma_pow2_adds, lemma_pow2_pos, lemma_pow2_unfold, pow2,
};
use vstd::prelude::*;

verus! {

/// How far factor `i` of the table lies below one: the binary logarithm of
/// `factor / 2^64`, negated and scaled by `2^26`, rounded up to a whole
/// number or to the one after it.
pub open spec fn factor_gain(i: nat) -> nat {
    if i == 0 {
        4841
    } else if i == 1 {
        9682
    } else if i == 2 {
        19363
    } else if i == 3 {
        38726
    } else if i == 4 {
        77451
    } else if i == 5 {
        154901
    } else if i == 6 {
        309801
    } else if i == 7 {
        619602
    } else if i == 8 {
        1239204
    } else if i == 9 {
        2478408
    } else if i == 10 {
        4956815
    } else if i == 11 {
        9913630
    } else if i == 12 {
        19827259
    } else if i == 13 {
        39654517
    } else if i == 14 {
        79309034
    } else if i == 15 {
        158618067
    } else if i == 16 {
        317236134
    } else if i == 17 {
        634472267
    } else {
        0
    }
}

/// The most by which the bits from `i` upward can overstate their gains.
pub open spec fn upper_margin(i: nat) -> nat {
    if i == 0 {
        99216374013901144064
    } else if i == 1 {
        92819635026103631872
    } else if i == 2 {
        87830690711385145344
    } else if i == 3 {
        81755068912386441216
    } else if i == 4 {
        77408358975265570816
    } else if i == 5 {
        72617205931462098944
    } else if i == 6 {
        66937166674293424128
    } else if i == 7 {
        59479354990394343424
    } else if i == 8 {
        52368265283472719872
    } else if i == 9 {
        45950619530506010624
    } else if i == 10 {
        40919861685449129984
    } else if i == 11 {
        34760612825773637632
    } else if i == 12 {
        30246648767299190784
    } else if i == 13 {
        25120987480788566016
    } else if i == 14 {
        18771931738205585408
    } else if i == 15 {
        13878353913916162048
    } else if i == 16 {
        7993465095775584256
    } else if i == 17 {
        4028221120370966528
    } else {
        0
    }
}

/// The most by which the bits from `i` upward can understate their gains.
pub open spec fn lower_margin(i: nat) -> nat {
    if i == 0 {
        111506034829765378048
    } else if i == 1 {
        106195973326248083456
    } else if i == 2 {
        99478117149651763200
    } else if i == 3 {
        93846938457335660544
    } else if i == 4 {
        86486847903141724160
    } else if i == 5 {
        79571200455630389248
    } else if i == 6 {
        73544439221484257280
    } else if i == 7 {
        69295450414068531200
    } else if i == 8 {
        64699739629675347968
    } else if i == 9 {
        59410584891327250432
    } else if i == 10 {
        52734542245069324288
    } else if i == 11 {
        47186990613430009856
    } else if i == 12 {
        39994154180589649920
    } else if i == 13 {
        33413014975785467904
    } else if i == 14 {
        28055270227053641728
    } else if i == 15 {
        21242047560028258304
    } else if i == 16 {
        15420135886854029312
    } else if i == 17 {
        7678579370943840256
    } else {
        0
    }
}

/// One digit of the logarithm on given numbers.
proof fn lemma_digits_step(r: nat, acc: nat, steps: nat, next: nat, next_acc: nat)
    requires
        steps > 0,
        next == if r * r >= 0x8000_0000_0000_0000_0000_0000_0000_0000 {
            r * r / 0x1_0000_0000_0000_0000
        } else {
            r * r / 0x8000_0000_0000_0000
        },
        next_acc == if r * r >= 0x8000_0000_0000_0000_0000_0000_0000_0000 {
            2 * acc + 1
        } else {
            2 * acc
        },
    ensures
        log2_digits(r, acc, steps) == log2_digits(next, next_acc, (steps - 1) as nat),
{
}

/// Factor 0 of the table between two powers of two, after 26
/// squarings.
proof fn lemma_factor_power_0()
    ensures
        pow2(4294962455) <= sq_pow(0xfffcb933bd6fb800, 26) < pow2(4294962457),
{
    lemma2_to64();
    lemma2_to64_rest();
    lemma_floor_log2_is(0xfffcb933bd6fb800, 63);
    assert(mantissa(0xfffcb933bd6fb800) == 0xfffcb933bd6fb800);
    lemma_digits_step(0xfffcb933bd6fb800, 0, 26, 0xfff97272373d56c2, 1);
    lemma_digits_step(0xfff97272373d56c2, 1, 25, 0xfff2e50f5f659451, 3);
    lemma_digits_step(0xfff2e50f5f659451, 3, 24, 0xffe5caca7e113b1d, 7);
    lemma_digits_step(0xffe5caca7e113b1d, 7, 23, 0xffcb9843d6100db5, 15);
    lemma_digits_step(0xffcb9843d6100db5, 15, 22, 0xff973b41fa9a18f1, 31);
    lemma_digits_step(0xff973b41fa9a18f1, 31, 21, 0xff2ea16466cc19fd, 63);
    lemma_digits_step(0xff2ea16466cc19fd, 63, 20, 0xfe5dee046a9efdcc, 127);
    lemma_digits_step(0xfe5dee046a9efdcc, 127, 19, 0xfcbe86c790152d78, 255);
    lemma_digits_step(0xfcbe86c790152d78, 255, 18, 0xf987a7253ad9175b, 511);
    lemma_digits_step(0xf987a7253ad9175b, 511, 17, 0xf3392b0822dff896, 1023);
    lemma_digits_step(0xf3392b0822dff896, 1023, 16, 0xe7159475a31075a2, 2047);
    lemma_digits_step(0xe7159475a31075a2, 2047, 15, 0xd097f3bdfdacaf97, 4095);
    lemma_digits_step(0xd097f3bdfdacaf97, 4095, 14, 0xa9f746462e6c1ba2, 8191);
    lemma_digits_step(0xa9f746462e6c1ba2, 8191, 13, 0xe1b0d342b0058b73, 16382);
    lemma_digits_step(0xe1b0d342b0058b73, 16382, 12, 0xc6f84d7e6372c648, 32765);
    lemma_digits_step(0xc6f84d7e6372c648, 32765, 11, 0x9aa508b5be2b7f50, 65531);
    lemma_digits_step(0x9aa508b5be2b7f50, 65531, 10, 0xbad5f1bdc6beac4f, 131062);
    lemma_digits_step(0xbad5f1bdc6beac4f, 131062, 9, 0x885b9613eee0a88f, 262125);
    lemma_digits_step(0x885b9613eee0a88f, 262125, 8, 0x9142e0726febc898, 524250);
    lemma_digits_step(0x9142e0726febc898, 524250, 7, 0xa4d9a77445268ba8, 1048500);
    lemma_digits_step(0xa4d9a77445268ba8, 1048500, 6, 0xd44f2f34927f0a9e, 2097000);
    lemma_digits_step(0xd44f2f34927f0a9e, 2097000, 5, 0xb0133ead3dc92c94, 4194001);
    lemma_digits_step(0xb0133ead3dc92c94, 4194001, 4, 0xf234ef41240850a4, 8388002);
    lemma_digits_step(0xf234ef41240850a4, 8388002, 3, 0xe5281f493a310db1, 16776005);
    lemma_digits_step(0xe5281f493a310db1, 16776005, 2, 0xcd20ce42ccd0c2dd, 33552011);
    lemma_digits_step(0xcd20ce42ccd0c2dd, 33552011, 1, 0xa45d8e8b32e91f54, 67104023);
    lemma_number_digits(0xfffcb933bd6fb800, 26);
    assert(63 * pow2(26) + 67104023 == 4294962455);
}

/// Factor 1 of the table between two powers of two, after 26
/// squarings.
proof fn lemma_factor_power_1()
    ensures
        pow2(4294957614) <= sq_pow(0xfff97272373d4000, 26) < pow2(4294957616),
{
    lemma2_to64();
    lemma2_to64_rest();
    lemma_floor_log2_is(0xfff97272373d4000, 63);
    assert(mantissa(0xfff97272373d4000) == 0xfff97272373d4000);
    lemma_digits_step(0xfff97272373d4000, 0, 26, 0xfff2e50f5f6566ce, 1);
    lemma_digits_step(0xfff2e50f5f6566ce, 1, 25, 0xffe5caca7e10e01c, 3);
    lemma_digits_step(0xffe5caca7e10e01c, 3, 24, 0xffcb9843d60f57c6, 7);
    lemma_digits_step(0xffcb9843d60f57c6, 7, 23, 0xff973b41fa98ad5d, 15);
    lemma_digits_step(0xff973b41fa98ad5d, 15, 22, 0xff2ea16466c943ff, 31);
    lemma_digits_step(0xff2ea16466c943ff, 31, 21, 0xfe5dee046a995674, 63);
    lemma_digits_step(0xfe5dee046a995674, 63, 20, 0xfcbe86c79009f13f, 127);
    lemma_digits_step(0xfcbe86c79009f13f, 127, 19, 0xf987a7253ac2e811, 255);
    lemma_digits_step(0xf987a7253ac2e811, 255, 18, 0xf3392b0822b4b916, 511);
    lemma_digits_step(0xf3392b0822b4b916, 511, 17, 0xe7159475a2be47c5, 1023);
    lemma_digits_step(0xe7159475a2be47c5, 1023, 16, 0xd097f3bdfd1852f7, 2047);
    lemma_digits_step(0xd097f3bdfd1852f7, 2047, 15, 0xa9f746462d7a54ff, 4095);
    lemma_digits_step(0xa9f746462d7a54ff, 4095, 14, 0xe1b0d342ad8374c8, 8190);
    lemma_digits_step(0xe1b0d342ad8374c8, 8190, 13, 0xc6f84d7e5f06a36c, 16381);
    lemma_digits_step(0xc6f84d7e5f06a36c, 16381, 12, 0x9aa508b5b74ba533, 32763);
    lemma_digits_step(0x9aa508b5b74ba533, 32763, 11, 0xbad5f1bdb6224d6b, 65526);
    lemma_digits_step(0xbad5f1bdb6224d6b, 65526, 10, 0x885b9613d6a1ab17, 131053);
    lemma_digits_step(0x885b9613d6a1ab17, 131053, 9, 0x9142e0723c433b8e, 262106);
    lemma_digits_step(0x9142e0723c433b8e, 262106, 8, 0xa4d9a773cfe6b121, 524212);
    lemma_digits_step(0xa4d9a773cfe6b121, 524212, 7, 0xd44f2f33647cab5b, 1048424);
    lemma_digits_step(0xd44f2f33647cab5b, 1048424, 6, 0xb0133eab48da69f7, 2096849);
    lemma_digits_step(0xb0133eab48da69f7, 2096849, 5, 0xf234ef3bc1e11807, 4193698);
    lemma_digits_step(0xf234ef3bc1e11807, 4193698, 4, 0xe5281f3f0a64f6d4, 8387397);
    lemma_digits_step(0xe5281f3f0a64f6d4, 8387397, 3, 0xcd20ce30901c352e, 16774795);
    lemma_digits_step(0xcd20ce30901c352e, 16774795, 2, 0xa45d8e6df903655c, 33549591);
    lemma_digits_step(0xa45d8e6df903655c, 33549591, 1, 0xd310015b6462eba6, 67099182);
    lemma_number_digits(0xfff97272373d4000, 26);
    assert(63 * pow2(26) + 67099182 == 4294957614);
}

/// Factor 2 of the table between two powers of two, after 26
/// squarings.
proof fn lemma_factor_power_2()
    ensures
        pow2(4294947933) <= sq_pow(0xfff2e50f5f657000, 26) < pow2(4294947935),
{
    lemma2_to64();
    lemma2_to64_rest();
    lemma_floor_log2_is(0xfff2e50f5f657000, 63);
    assert(mantissa(0xfff2e50f5f657000) == 0xfff2e50f5f657000);
    lemma_digits_step(0xfff2e50f5f657000, 0, 26, 0xffe5caca7e10f27f, 1);
    lemma_digits_step(0xffe5caca7e10f27f, 1, 25, 0xffcb9843d60f7c88, 3);
    lemma_digits_step(0xffcb9843d60f7c88, 3, 24, 0xff973b41fa98f6d2, 7);
    lemma_digits_step(0xff973b41fa98f6d2, 7, 23, 0xff2ea16466c9d6ad, 15);
    lemma_digits_step(0xff2ea16466c9d6ad, 15, 22, 0xfe5dee046a9a7ae0, 31);
    lemma_digits_step(0xfe5dee046a9a7ae0, 31, 21, 0xfcbe86c7900c365c, 63);
    lemma_digits_step(0xfcbe86c7900c365c, 63, 20, 0xf987a7253ac76383, 127);
    lemma_digits_step(0xf987a7253ac76383, 127, 19, 0xf3392b0822bd75f9, 255);
    lemma_digits_step(0xf3392b0822bd75f9, 255, 18, 0xe7159475a2cee243, 511);
    lemma_digits_step(0xe7159475a2cee243, 511, 17, 0xd097f3bdfd364c93, 1023);
    lemma_digits_step(0xd097f3bdfd364c93, 1023, 16, 0xa9f746462dab2e32, 2047);
    lemma_digits_step(0xa9f746462dab2e32, 2047, 15, 0xe1b0d342ae052f0f, 4094);
    lemma_digits_step(0xe1b0d342ae052f0f, 4094, 14, 0xc6f84d7e5feb6013, 8189);
    lemma_digits_step(0xc6f84d7e5feb6013, 8189, 13, 0x9aa508b5b8af34bd, 16379);
    lemma_digits_step(0x9aa508b5b8af34bd, 16379, 12, 0xbad5f1bdb97d73ad, 32758);
    lemma_digits_step(0xbad5f1bdb97d73ad, 32758, 11, 0x885b9613db87bab3, 65517);
    lemma_digits_step(0x885b9613db87bab3, 65517, 10, 0x9142e07246b31f54, 131034);
    lemma_digits_step(0x9142e07246b31f54, 131034, 9, 0xa4d9a773e797192b, 262068);
    lemma_digits_step(0xa4d9a773e797192b, 262068, 8, 0xd44f2f33a1814611, 524136);
    lemma_digits_step(0xd44f2f33a1814611, 524136, 7, 0xb0133eabae0fc98c, 1048273);
    lemma_digits_step(0xb0133eabae0fc98c, 1048273, 6, 0xf234ef3cd8524dd4, 2096546);
    lemma_digits_step(0xf234ef3cd8524dd4, 2096546, 5, 0xe5281f41194626f4, 4193093);
    lemma_digits_step(0xe5281f41194626f4, 4193093, 4, 0xcd20ce343f603c49, 8386187);
    lemma_digits_step(0xcd20ce343f603c49, 8386187, 3, 0xa45d8e73e0a81944, 16772375);
    lemma_digits_step(0xa45d8e73e0a81944, 16772375, 2, 0xd310016a8e9ab85f, 33544750);
    lemma_digits_step(0xd310016a8e9ab85f, 33544750, 1, 0xae036355d466e0bb, 67089501);
    lemma_number_digits(0xfff2e50f5f657000, 26);
    assert(63 * pow2(26) + 67089501 == 4294947933);
}

/// Factor 3 of the table between two powers of two, after 26
/// squarings.
proof fn lemma_factor_power_3()
    ensures
        pow2(4294928570) <= sq_pow(0xffe5caca7e10f000, 26) < pow2(4294928572),
{
    lemma2_to64();
    lemma2_to64_rest();
    lemma_floor_log2_is(0xffe5caca7e10f000, 63);
    assert(mantissa(0xffe5caca7e10f000) == 0xffe5caca7e10f000);
    lemma_digits_step(0xffe5caca7e10f000, 0, 26, 0xffcb9843d60f778b, 1);
    lemma_digits_step(0xffcb9843d60f778b, 1, 25, 0xff973b41fa98ecda, 3);
    lemma_digits_step(0xff973b41fa98ecda, 3, 24, 0xff2ea16466c9c2c5, 7);
    lemma_digits_step(0xff2ea16466c9c2c5, 7, 23, 0xfe5dee046a9a5330, 15);
    lemma_digits_step(0xfe5dee046a9a5330, 15, 22, 0xfcbe86c7900be77e, 31);
    lemma_digits_step(0xfcbe86c7900be77e, 31, 21, 0xf987a7253ac6c7c9, 63);
    lemma_digits_step(0xf987a7253ac6c7c9, 63, 20, 0xf3392b0822bc4665, 127);
    lemma_digits_step(0xf3392b0822bc4665, 127, 19, 0xe7159475a2cca168, 255);
    lemma_digits_step(0xe7159475a2cca168, 255, 18, 0xd097f3bdfd323b26, 511);
    lemma_digits_step(0xd097f3bdfd323b26, 511, 17, 0xa9f746462da48d0c, 1023);
    lemma_digits_step(0xa9f746462da48d0c, 1023, 16, 0xe1b0d342adf393ea, 2046);
    lemma_digits_step(0xe1b0d342adf393ea, 2046, 15, 0xc6f84d7e5fcc550a, 4093);
    lemma_digits_step(0xc6f84d7e5fcc550a, 4093, 14, 0x9aa508b5b87ef373, 8187);
    lemma_digits_step(0x9aa508b5b87ef373, 8187, 13, 0xbad5f1bdb908da25, 16374);
    lemma_digits_step(0xbad5f1bdb908da25, 16374, 12, 0x885b9613dadd88b6, 32749);
    lemma_digits_step(0x885b9613dadd88b6, 32749, 11, 0x9142e0724548818c, 65498);
    lemma_digits_step(0x9142e0724548818c, 65498, 10, 0xa4d9a773e46010c8, 130996);
    lemma_digits_step(0xa4d9a773e46010c8, 130996, 9, 0xd44f2f3399395192, 261992);
    lemma_digits_step(0xd44f2f3399395192, 261992, 8, 0xb0133eaba0537d23, 523985);
    lemma_digits_step(0xb0133eaba0537d23, 523985, 7, 0xf234ef3cb2885a59, 1047970);
    lemma_digits_step(0xf234ef3cb2885a59, 1047970, 6, 0xe5281f40d1c4b5f3, 2095941);
    lemma_digits_step(0xe5281f40d1c4b5f3, 2095941, 5, 0xcd20ce33bf5c3e34, 4191883);
    lemma_digits_step(0xcd20ce33bf5c3e34, 4191883, 4, 0xa45d8e731380e51d, 8383767);
    lemma_digits_step(0xa45d8e731380e51d, 8383767, 3, 0xd31001687fba5d22, 16767534);
    lemma_digits_step(0xd31001687fba5d22, 16767534, 2, 0xae0363526f9f2879, 33535069);
    lemma_digits_step(0xae0363526f9f2879, 33535069, 1, 0xec91361f1467ab40, 67070138);
    lemma_number_digits(0xffe5caca7e10f000, 26);
    assert(63 * pow2(26) + 67070138 == 4294928570);
}

/// Factor 4 of the table between two powers of two, after 26
/// squarings.
proof fn lemma_factor_power_4()
    ensures
        pow2(4294889845) <= sq_pow(0xffcb9843d60f7000, 26) < pow2(4294889847),
{
    lemma2_to64();
    lemma2_to64_rest();
    lemma_floor_log2_is(0xffcb9843d60f7000, 63);
    assert(mantissa(0xffcb9843d60f7000) == 0xffcb9843d60f7000);
    lemma_digits_step(0xffcb9843d60f7000, 0, 26, 0xff973b41fa98ddc7, 1);
    lemma_digits_step(0xff973b41fa98ddc7, 1, 25, 0xff2ea16466c9a4ab, 3);
    lemma_digits_step(0xff2ea16466c9a4ab, 3, 24, 0xfe5dee046a9a172d, 7);
    lemma_digits_step(0xfe5dee046a9a172d, 7, 23, 0xfcbe86c7900b703c, 15);
    lemma_digits_step(0xfcbe86c7900b703c, 15, 22, 0xf987a7253ac5dc4d, 31);
    lemma_digits_step(0xf987a7253ac5dc4d, 31, 21, 0xf3392b0822ba7b54, 63);
    lemma_digits_step(0xf3392b0822ba7b54, 63, 20, 0xe7159475a2c93919, 127);
    lemma_digits_step(0xe7159475a2c93919, 127, 19, 0xd097f3bdfd2c1455, 255);
    lemma_digits_step(0xd097f3bdfd2c1455, 255, 18, 0xa9f746462d9a86ab, 511);
    lemma_digits_step(0xa9f746462d9a86ab, 511, 17, 0xe1b0d342add8f456, 1022);
    lemma_digits_step(0xe1b0d342add8f456, 1022, 16, 0xc6f84d7e5f9d63c0, 2045);
    lemma_digits_step(0xc6f84d7e5f9d63c0, 2045, 15, 0x9aa508b5b835fb25, 4091);
    lemma_digits_step(0x9aa508b5b835fb25, 4091, 14, 0xbad5f1bdb858887f, 8182);
    lemma_digits_step(0xbad5f1bdb858887f, 8182, 13, 0x885b9613d9dc2b5c, 16365);
    lemma_digits_step(0x885b9613d9dc2b5c, 16365, 12, 0x9142e07243242ae1, 32730);
    lemma_digits_step(0x9142e07243242ae1, 32730, 11, 0xa4d9a773df837f70, 65460);
    lemma_digits_step(0xa4d9a773df837f70, 65460, 10, 0xd44f2f338cb3948b, 130920);
    lemma_digits_step(0xd44f2f338cb3948b, 130920, 9, 0xb0133eab8b8e3ce7, 261841);
    lemma_digits_step(0xb0133eab8b8e3ce7, 261841, 8, 0xf234ef3c7963aace, 523682);
    lemma_digits_step(0xf234ef3c7963aace, 523682, 7, 0xe5281f4065a3b85c, 1047365);
    lemma_digits_step(0xe5281f4065a3b85c, 1047365, 6, 0xcd20ce32fdc753ce, 2094731);
    lemma_digits_step(0xcd20ce32fdc753ce, 2094731, 5, 0xa45d8e71dd46c8a1, 4189463);
    lemma_digits_step(0xa45d8e71dd46c8a1, 4189463, 4, 0xd310016562fff537, 8378926);
    lemma_digits_step(0xd310016562fff537, 8378926, 3, 0xae03634d4de04124, 16757853);
    lemma_digits_step(0xae03634d4de04124, 16757853, 2, 0xec91361120631ac3, 33515706);
    lemma_digits_step(0xec91361120631ac3, 33515706, 1, 0xda9c0e0dde88a46a, 67031413);
    lemma_number_digits(0xffcb9843d60f7000, 26);
    assert(63 * pow2(26) + 67031413 == 4294889845);
}

/// Factor 5 of the table between two powers of two, after 26
/// squarings.
proof fn lemma_factor_power_5()
    ensures
        pow2(4294812395) <= sq_pow(0xff973b41fa98e800, 26) < pow2(4294812397),
{
    lemma2_to64();
    lemma2_to64_rest();
    lemma_floor_log2_is(0xff973b41fa98e800, 63);
    assert(mantissa(0xff973b41fa98e800) == 0xff973b41fa98e800);
    lemma_digits_step(0xff973b41fa98e800, 0, 26, 0xff2ea16466c9b915, 1);
    lemma_digits_step(0xff2ea16466c9b915, 1, 25, 0xfe5dee046a9a3fe0, 3);
    lemma_digits_step(0xfe5dee046a9a3fe0, 3, 24, 0xfcbe86c7900bc11d, 7);
    lemma_digits_step(0xfcbe86c7900bc11d, 7, 23, 0xf987a7253ac67c01, 15);
    lemma_digits_step(0xf987a7253ac67c01, 15, 22, 0xf3392b0822bbb2a9, 31);
    lemma_digits_step(0xf3392b0822bbb2a9, 31, 21, 0xe7159475a2cb88af, 63);
    lemma_digits_step(0xe7159475a2cb88af, 63, 20, 0xd097f3bdfd304059, 127);
    lemma_digits_step(0xd097f3bdfd304059, 127, 19, 0xa9f746462da15325, 255);
    lemma_digits_step(0xa9f746462da15325, 255, 18, 0xe1b0d342adeb028d, 510);
    lemma_digits_step(0xe1b0d342adeb028d, 510, 17, 0xc6f84d7e5fbd39ae, 1021);
    lemma_digits_step(0xc6f84d7e5fbd39ae, 1021, 16, 0x9aa508b5b86777d3, 2043);
    lemma_digits_step(0x9aa508b5b86777d3, 2043, 15, 0xbad5f1bdb8d01c1e, 4086);
    lemma_digits_step(0xbad5f1bdb8d01c1e, 4086, 14, 0x885b9613da8ab5bc, 8173);
    lemma_digits_step(0x885b9613da8ab5bc, 8173, 13, 0x9142e07244980ab3, 16346);
    lemma_digits_step(0x9142e07244980ab3, 16346, 12, 0xa4d9a773e2cf8b1f, 32692);
    lemma_digits_step(0xa4d9a773e2cf8b1f, 32692, 11, 0xd44f2f339531a8f3, 65384);
    lemma_digits_step(0xd44f2f339531a8f3, 65384, 10, 0xb0133eab99a44fa5, 130769);
    lemma_digits_step(0xb0133eab99a44fa5, 130769, 9, 0xf234ef3ca0249ab1, 261538);
    lemma_digits_step(0xf234ef3ca0249ab1, 261538, 8, 0xe5281f40aef884b5, 523077);
    lemma_digits_step(0xe5281f40aef884b5, 523077, 7, 0xcd20ce33811005cd, 1046155);
    lemma_digits_step(0xcd20ce33811005cd, 1046155, 6, 0xa45d8e72afaadb5e, 2092311);
    lemma_digits_step(0xa45d8e72afaadb5e, 2092311, 5, 0xd31001677f53f2ec, 4184622);
    lemma_digits_step(0xd31001677f53f2ec, 4184622, 4, 0xae036350c8d645c5, 8369245);
    lemma_digits_step(0xae036350c8d645c5, 8369245, 3, 0xec91361a96df2162, 16738490);
    lemma_digits_step(0xec91361a96df2162, 16738490, 2, 0xda9c0e1f5bb988b9, 33476981);
    lemma_digits_step(0xda9c0e1f5bb988b9, 33476981, 1, 0xbaae272e9f3738d9, 66953963);
    lemma_number_digits(0xff973b41fa98e800, 26);
    assert(63 * pow2(26) + 66953963 == 4294812395);
}

/// Factor 6 of the table between two powers of two, after 26
/// squarings.
proof fn lemma_factor_power_6()
    ensures
        pow2(4294657495) <= sq_pow(0xff2ea16466c9b000, 26) < pow2(4294657497),
{
    lemma2_to64();
    lemma2_to64_rest();
    lemma_floor_log2_is(0xff2ea16466c9b000, 63);
    assert(mantissa(0xff2ea16466c9b000) == 0xff2ea16466c9b000);
    lemma_digits_step(0xff2ea16466c9b000, 0, 26, 0xfe5dee046a9a2dc5, 1);
    lemma_digits_step(0xfe5dee046a9a2dc5, 1, 25, 0xfcbe86c7900b9d22, 3);
    lemma_digits_step(0xfcbe86c7900b9d22, 3, 24, 0xf987a7253ac634f5, 7);
    lemma_digits_step(0xf987a7253ac634f5, 7, 23, 0xf3392b0822bb2829, 15);
    lemma_digits_step(0xf3392b0822bb2829, 15, 22, 0xe7159475a2ca8182, 31);
    lemma_digits_step(0xe7159475a2ca8182, 31, 21, 0xd097f3bdfd2e653a, 63);
    lemma_digits_step(0xd097f3bdfd2e653a, 63, 20, 0xa9f746462d9e4cdf, 127);
    lemma_digits_step(0xa9f746462d9e4cdf, 127, 19, 0xe1b0d342ade2fa4c, 254);
    lemma_digits_step(0xe1b0d342ade2fa4c, 254, 18, 0xc6f84d7e5faf1014, 509);
    lemma_digits_step(0xc6f84d7e5faf1014, 509, 17, 0x9aa508b5b85173ff, 1019);
    lemma_digits_step(0x9aa508b5b85173ff, 1019, 16, 0xbad5f1bdb89aea23, 2038);
    lemma_digits_step(0xbad5f1bdb89aea23, 2038, 15, 0x885b9613da3d1032, 4077);
    lemma_digits_step(0x885b9613da3d1032, 4077, 14, 0x9142e07243f29bd0, 8154);
    lemma_digits_step(0x9142e07243f29bd0, 8154, 13, 0xa4d9a773e1580f06, 16308);
    lemma_digits_step(0xa4d9a773e1580f06, 16308, 12, 0xd44f2f33916a7dfc, 32616);
    lemma_digits_step(0xd44f2f33916a7dfc, 32616, 11, 0xb0133eab93601a2b, 65233);
    lemma_digits_step(0xb0133eab93601a2b, 65233, 10, 0xf234ef3c8ee7253f, 130466);
    lemma_digits_step(0xf234ef3c8ee7253f, 130466, 9, 0xe5281f408e593179, 260933);
    lemma_digits_step(0xe5281f408e593179, 260933, 8, 0xcd20ce3346a8c123, 521867);
    lemma_digits_step(0xcd20ce3346a8c123, 521867, 7, 0xa45d8e7252127f7f, 1043735);
    lemma_digits_step(0xa45d8e7252127f7f, 1043735, 6, 0xd31001668ef4b5ca, 2087470);
    lemma_digits_step(0xd31001668ef4b5ca, 2087470, 5, 0xae03634f3c7b3875, 4174941);
    lemma_digits_step(0xae03634f3c7b3875, 4174941, 4, 0xec913616613299e0, 8349882);
    lemma_digits_step(0xec913616613299e0, 8349882, 3, 0xda9c0e1793fcd9fd, 16699765);
    lemma_digits_step(0xda9c0e1793fcd9fd, 16699765, 2, 0xbaae2721558d95c8, 33399531);
    lemma_digits_step(0xbaae2721558d95c8, 33399531, 1, 0x88218755a79d3686, 66799063);
    lemma_number_digits(0xff2ea16466c9b000, 26);
    assert(63 * pow2(26) + 66799063 == 4294657495);
}

/// Factor 7 of the table between two powers of two, after 26
/// squarings.
proof fn lemma_factor_power_7()
    ensures
        pow2(4294347694) <= sq_pow(0xfe5dee046a9a3800, 26) < pow2(4294347696),
{
    lemma2_to64();
    lemma2_to64_rest();
    lemma_floor_log2_is(0xfe5dee046a9a3800, 63);
    assert(mantissa(0xfe5dee046a9a3800) == 0xfe5dee046a9a3800);
    lemma_digits_step(0xfe5dee046a9a3800, 0, 26, 0xfcbe86c7900bb176, 1);
    lemma_digits_step(0xfcbe86c7900bb176, 1, 25, 0xf987a7253ac65d19, 3);
    lemma_digits_step(0xf987a7253ac65d19, 3, 24, 0xf3392b0822bb7669, 7);
    lemma_digits_step(0xf3392b0822bb7669, 7, 23, 0xe7159475a2cb1633, 15);
    lemma_digits_step(0xe7159475a2cb1633, 15, 22, 0xd097f3bdfd2f71aa, 31);
    lemma_digits_step(0xd097f3bdfd2f71aa, 31, 21, 0xa9f746462da00254, 63);
    lemma_digits_step(0xa9f746462da00254, 63, 20, 0xe1b0d342ade7840f, 126);
    lemma_digits_step(0xe1b0d342ade7840f, 126, 19, 0xc6f84d7e5fb71081, 253);
    lemma_digits_step(0xc6f84d7e5fb71081, 253, 18, 0x9aa508b5b85de42e, 507);
    lemma_digits_step(0x9aa508b5b85de42e, 507, 17, 0xbad5f1bdb8b8f827, 1014);
    lemma_digits_step(0xbad5f1bdb8b8f827, 1014, 16, 0x885b9613da68eecc, 2029);
    lemma_digits_step(0x885b9613da68eecc, 2029, 15, 0x9142e0724450139f, 4058);
    lemma_digits_step(0x9142e0724450139f, 4058, 14, 0xa4d9a773e22c3422, 8116);
    lemma_digits_step(0xa4d9a773e22c3422, 8116, 13, 0xd44f2f33938cee8d, 16232);
    lemma_digits_step(0xd44f2f33938cee8d, 16232, 12, 0xb0133eab96ea76a6, 32465);
    lemma_digits_step(0xb0133eab96ea76a6, 32465, 11, 0xf234ef3c98a4b41c, 64930);
    lemma_digits_step(0xf234ef3c98a4b41c, 64930, 10, 0xe5281f40a0c79ac9, 129861);
    lemma_digits_step(0xe5281f40a0c79ac9, 129861, 9, 0xcd20ce3367a8108d, 259723);
    lemma_digits_step(0xcd20ce3367a8108d, 259723, 8, 0xa45d8e7286f3d9aa, 519447);
    lemma_digits_step(0xa45d8e7286f3d9aa, 519447, 7, 0xd310016716c37a01, 1038894);
    lemma_digits_step(0xd310016716c37a01, 1038894, 6, 0xae0363501c6b0b3d, 2077789);
    lemma_digits_step(0xae0363501c6b0b3d, 2077789, 5, 0xec913618c21279ab, 4155578);
    lemma_digits_step(0xec913618c21279ab, 4155578, 4, 0xda9c0e1bf94c5d85, 8311157);
    lemma_digits_step(0xda9c0e1bf94c5d85, 8311157, 3, 0xbaae2728d774f6ab, 16622315);
    lemma_digits_step(0xbaae2728d774f6ab, 16622315, 2, 0x882187609a985199, 33244631);
    lemma_digits_step(0x882187609a985199, 33244631, 1, 0x90c74875a58172f1, 66489262);
    lemma_number_digits(0xfe5dee046a9a3800, 26);
    assert(63 * pow2(26) + 66489262 == 4294347694);
}

/// Factor 8 of the table between two powers of two, after 26
/// squarings.
proof fn lemma_factor_power_8()
    ensures
        pow2(4293728092) <= sq_pow(0xfcbe86c7900bb000, 26) < pow2(4293728094),
{
    lemma2_to64();
    lemma2_to64_rest();
    lemma_floor_log2_is(0xfcbe86c7900bb000, 63);
    assert(mantissa(0xfcbe86c7900bb000) == 0xfcbe86c7900bb000);
    lemma_digits_step(0xfcbe86c7900bb000, 0, 26, 0xf987a7253ac65a36, 1);
    lemma_digits_step(0xf987a7253ac65a36, 1, 25, 0xf3392b0822bb70c9, 3);
    lemma_digits_step(0xf3392b0822bb70c9, 3, 24, 0xe7159475a2cb0b82, 7);
    lemma_digits_step(0xe7159475a2cb0b82, 7, 23, 0xd097f3bdfd2f5e5d, 15);
    lemma_digits_step(0xd097f3bdfd2f5e5d, 15, 22, 0xa9f746462d9fe2e0, 31);
    lemma_digits_step(0xa9f746462d9fe2e0, 31, 21, 0xe1b0d342ade73087, 62);
    lemma_digits_step(0xe1b0d342ade73087, 62, 20, 0xc6f84d7e5fb67d39, 125);
    lemma_digits_step(0xc6f84d7e5fb67d39, 125, 19, 0x9aa508b5b85cff3c, 251);
    lemma_digits_step(0x9aa508b5b85cff3c, 251, 18, 0xbad5f1bdb8b6cef2, 502);
    lemma_digits_step(0xbad5f1bdb8b6cef2, 502, 17, 0x885b9613da65c74e, 1005);
    lemma_digits_step(0x885b9613da65c74e, 1005, 16, 0x9142e07244495b2f, 2010);
    lemma_digits_step(0x9142e07244495b2f, 2010, 15, 0xa4d9a773e21cf33f, 4020);
    lemma_digits_step(0xa4d9a773e21cf33f, 4020, 14, 0xd44f2f339365a467, 8040);
    lemma_digits_step(0xd44f2f339365a467, 8040, 13, 0xb0133eab96a94b89, 16081);
    lemma_digits_step(0xb0133eab96a94b89, 16081, 12, 0xf234ef3c97f169f4, 32162);
    lemma_digits_step(0xf234ef3c97f169f4, 32162, 11, 0xe5281f409f745870, 64325);
    lemma_digits_step(0xe5281f409f745870, 64325, 10, 0xcd20ce336548b182, 128651);
    lemma_digits_step(0xcd20ce336548b182, 128651, 9, 0xa45d8e7283267fc9, 257303);
    lemma_digits_step(0xa45d8e7283267fc9, 257303, 8, 0xd31001670cffb4d4, 514606);
    lemma_digits_step(0xd31001670cffb4d4, 514606, 7, 0xae0363500c511ba1, 1029213);
    lemma_digits_step(0xae0363500c511ba1, 1029213, 6, 0xec913618964b1c07, 2058426);
    lemma_digits_step(0xec913618964b1c07, 2058426, 5, 0xda9c0e1ba8631e86, 4116853);
    lemma_digits_step(0xda9c0e1ba8631e86, 4116853, 4, 0xbaae27284d451231, 8233707);
    lemma_digits_step(0xbaae27284d451231, 8233707, 3, 0x8821875fd10eb637, 16467415);
    lemma_digits_step(0x8821875fd10eb637, 16467415, 2, 0x90c74873f8d3737f, 32934830);
    lemma_digits_step(0x90c74873f8d3737f, 32934830, 1, 0xa3c1994861785659, 65869660);
    lemma_number_digits(0xfcbe86c7900bb000, 26);
    assert(63 * pow2(26) + 65869660 == 4293728092);
}

/// Factor 9 of the table between two powers of two, after 26
/// squarings.
proof fn lemma_factor_power_9()
    ensures
        pow2(4292488888) <= sq_pow(0xf987a7253ac65800, 26) < pow2(4292488890),
{
    lemma2_to64();
    lemma2_to64_rest();
    lemma_floor_log2_is(0xf987a7253ac65800, 63);
    assert(mantissa(0xf987a7253ac65800) == 0xf987a7253ac65800);
    lemma_digits_step(0xf987a7253ac65800, 0, 26, 0xf3392b0822bb6c79, 1);
    lemma_digits_step(0xf3392b0822bb6c79, 1, 25, 0xe7159475a2cb0351, 3);
    lemma_digits_step(0xe7159475a2cb0351, 3, 24, 0xd097f3bdfd2f4f93, 7);
    lemma_digits_step(0xd097f3bdfd2f4f93, 7, 23, 0xa9f746462d9fcac6, 15);
    lemma_digits_step(0xa9f746462d9fcac6, 15, 22, 0xe1b0d342ade6f086, 30);
    lemma_digits_step(0xe1b0d342ade6f086, 30, 21, 0xc6f84d7e5fb60c5f, 61);
    lemma_digits_step(0xc6f84d7e5fb60c5f, 61, 20, 0x9aa508b5b85c4fd0, 123);
    lemma_digits_step(0x9aa508b5b85c4fd0, 123, 19, 0xbad5f1bdb8b52712, 246);
    lemma_digits_step(0xbad5f1bdb8b52712, 246, 18, 0x885b9613da635c98, 493);
    lemma_digits_step(0x885b9613da635c98, 493, 17, 0x9142e072444434f7, 986);
    lemma_digits_step(0x9142e072444434f7, 986, 16, 0xa4d9a773e2114346, 1972);
    lemma_digits_step(0xa4d9a773e2114346, 1972, 15, 0xd44f2f33934789ba, 3944);
    lemma_digits_step(0xd44f2f33934789ba, 3944, 14, 0xb0133eab96775cbb, 7889);
    lemma_digits_step(0xb0133eab96775cbb, 7889, 13, 0xf234ef3c97680a3a, 15778);
    lemma_digits_step(0xf234ef3c97680a3a, 15778, 12, 0xe5281f409e7066a5, 31557);
    lemma_digits_step(0xe5281f409e7066a5, 31557, 11, 0xcd20ce3363775172, 63115);
    lemma_digits_step(0xcd20ce3363775172, 63115, 10, 0xa45d8e72803cb4a9, 126231);
    lemma_digits_step(0xa45d8e72803cb4a9, 126231, 9, 0xd310016705845a1b, 252462);
    lemma_digits_step(0xd310016705845a1b, 252462, 8, 0xae03634ffffad494, 504925);
    lemma_digits_step(0xae03634ffffad494, 504925, 7, 0xec91361874bfe3ac, 1009850);
    lemma_digits_step(0xec91361874bfe3ac, 1009850, 6, 0xda9c0e1b6a6460bc, 2019701);
    lemma_digits_step(0xda9c0e1b6a6460bc, 2019701, 5, 0xbaae2727e363a1a8, 4039403);
    lemma_digits_step(0xbaae2727e363a1a8, 4039403, 4, 0x8821875f36a30fd7, 8078807);
    lemma_digits_step(0x8821875f36a30fd7, 8078807, 3, 0x90c74872b05dcbd0, 16157614);
    lemma_digits_step(0x90c74872b05dcbd0, 16157614, 2, 0xa3c199457a70db66, 32315228);
    lemma_digits_step(0xa3c199457a70db66, 32315228, 1, 0xd180372de0e4e989, 64630456);
    lemma_number_digits(0xf987a7253ac65800, 26);
    assert(63 * pow2(26) + 64630456 == 4292488888);
}

/// Factor 10 of the table between two powers of two, after 26
/// squarings.
proof fn lemma_factor_power_10()
    ensures
        pow2(4290010481) <= sq_pow(0xf3392b0822bb6000, 26) < pow2(4290010483),
{
    lemma2_to64();
    lemma2_to64_rest();
    lemma_floor_log2_is(0xf3392b0822bb6000, 63);
    assert(mantissa(0xf3392b0822bb6000) == 0xf3392b0822bb6000);
    lemma_digits_step(0xf3392b0822bb6000, 0, 26, 0xe7159475a2caeb9d, 1);
    lemma_digits_step(0xe7159475a2caeb9d, 1, 25, 0xd097f3bdfd2f24c8, 3);
    lemma_digits_step(0xd097f3bdfd2f24c8, 3, 24, 0xa9f746462d9f8509, 7);
    lemma_digits_step(0xa9f746462d9f8509, 7, 23, 0xe1b0d342ade63751, 14);
    lemma_digits_step(0xe1b0d342ade63751, 14, 22, 0xc6f84d7e5fb4c5d0, 29);
    lemma_digits_step(0xc6f84d7e5fb4c5d0, 29, 21, 0x9aa508b5b85a5432, 59);
    lemma_digits_step(0x9aa508b5b85a5432, 59, 20, 0xbad5f1bdb8b05c81, 118);
    lemma_digits_step(0xbad5f1bdb8b05c81, 118, 19, 0x885b9613da5c5e3b, 237);
    lemma_digits_step(0x885b9613da5c5e3b, 237, 18, 0x9142e07244354e70, 474);
    lemma_digits_step(0x9142e07244354e70, 474, 17, 0xa4d9a773e1ef716a, 948);
    lemma_digits_step(0xa4d9a773e1ef716a, 948, 16, 0xd44f2f3392f06cf2, 1896);
    lemma_digits_step(0xd44f2f3392f06cf2, 1896, 15, 0xb0133eab95e6df2c, 3793);
    lemma_digits_step(0xb0133eab95e6df2c, 3793, 14, 0xf234ef3c95da857e, 7586);
    lemma_digits_step(0xf234ef3c95da857e, 7586, 13, 0xe5281f409b80334d, 15173);
    lemma_digits_step(0xe5281f409b80334d, 15173, 12, 0xcd20ce335e34a9ce, 30347);
    lemma_digits_step(0xcd20ce335e34a9ce, 30347, 11, 0xa45d8e7277ce9b09, 60695);
    lemma_digits_step(0xa45d8e7277ce9b09, 60695, 10, 0xd3100166efdde5b0, 121390);
    lemma_digits_step(0xd3100166efdde5b0, 121390, 9, 0xae03634fdc47bba0, 242781);
    lemma_digits_step(0xae03634fdc47bba0, 242781, 8, 0xec91361813af140a, 485562);
    lemma_digits_step(0xec91361813af140a, 485562, 7, 0xda9c0e1ab6ff43d8, 971125);
    lemma_digits_step(0xda9c0e1ab6ff43d8, 971125, 6, 0xbaae2726b100b574, 1942251);
    lemma_digits_step(0xbaae2726b100b574, 1942251, 5, 0x8821875d77ca746a, 3884503);
    lemma_digits_step(0x8821875d77ca746a, 3884503, 4, 0x90c7486ef9e768b4, 7769006);
    lemma_digits_step(0x90c7486ef9e768b4, 7769006, 3, 0xa3c1993d1456f07a, 15538012);
    lemma_digits_step(0xa3c1993d1456f07a, 15538012, 2, 0xd18037186372e469, 31076024);
    lemma_digits_step(0xd18037186372e469, 31076024, 1, 0xab729a2cf6a088e6, 62152049);
    lemma_number_digits(0xf3392b0822bb6000, 26);
    assert(63 * pow2(26) + 62152049 == 4290010481);
}

/// Factor 11 of the table between two powers of two, after 26
/// squarings.
proof fn lemma_factor_power_11()
    ensures
        pow2(4285053666) <= sq_pow(0xe7159475a2caf000, 26) < pow2(4285053668),
{
    lemma2_to64();
    lemma2_to64_rest();
    lemma_floor_log2_is(0xe7159475a2caf000, 63);
    assert(mantissa(0xe7159475a2caf000) == 0xe7159475a2caf000);
    lemma_digits_step(0xe7159475a2caf000, 0, 26, 0xd097f3bdfd2f2cb4, 1);
    lemma_digits_step(0xd097f3bdfd2f2cb4, 1, 25, 0xa9f746462d9f91f2, 3);
    lemma_digits_step(0xa9f746462d9f91f2, 3, 24, 0xe1b0d342ade6599a, 6);
    lemma_digits_step(0xe1b0d342ade6599a, 6, 23, 0xc6f84d7e5fb50243, 13);
    lemma_digits_step(0xc6f84d7e5fb50243, 13, 22, 0x9aa508b5b85ab229, 27);
    lemma_digits_step(0x9aa508b5b85ab229, 27, 21, 0xbad5f1bdb8b13f8d, 54);
    lemma_digits_step(0xbad5f1bdb8b13f8d, 54, 20, 0x885b9613da5da9a4, 109);
    lemma_digits_step(0x885b9613da5da9a4, 109, 19, 0x9142e07244381089, 218);
    lemma_digits_step(0x9142e07244381089, 218, 18, 0xa4d9a773e1f5b40d, 436);
    lemma_digits_step(0xa4d9a773e1f5b40d, 436, 17, 0xd44f2f3393008cfe, 872);
    lemma_digits_step(0xd44f2f3393008cfe, 872, 16, 0xb0133eab96019e39, 1745);
    lemma_digits_step(0xb0133eab96019e39, 1745, 15, 0xf234ef3c96241aec, 3490);
    lemma_digits_step(0xf234ef3c96241aec, 3490, 14, 0xe5281f409c0b703f, 6981);
    lemma_digits_step(0xe5281f409c0b703f, 6981, 13, 0xcd20ce335f2df07c, 13963);
    lemma_digits_step(0xcd20ce335f2df07c, 13963, 12, 0xa45d8e72795e161f, 27927);
    lemma_digits_step(0xa45d8e72795e161f, 27927, 11, 0xd3100166f3dfd910, 55854);
    lemma_digits_step(0xd3100166f3dfd910, 55854, 10, 0xae03634fe2e3731a, 111709);
    lemma_digits_step(0xae03634fe2e3731a, 111709, 9, 0xec91361825a6c86b, 223418);
    lemma_digits_step(0xec91361825a6c86b, 223418, 8, 0xda9c0e1ad8345a9d, 446837);
    lemma_digits_step(0xda9c0e1ad8345a9d, 446837, 7, 0xbaae2726e9b79c98, 893675);
    lemma_digits_step(0xbaae2726e9b79c98, 893675, 6, 0x8821875dca816645, 1787351);
    lemma_digits_step(0x8821875dca816645, 1787351, 5, 0x90c7486fa9d77fed, 3574702);
    lemma_digits_step(0x90c7486fa9d77fed, 3574702, 4, 0xa3c1993ea256fa62, 7149404);
    lemma_digits_step(0xa3c1993ea256fa62, 7149404, 3, 0xd180371c5dceeeba, 14298808);
    lemma_digits_step(0xd180371c5dceeeba, 14298808, 2, 0xab729a337966e42e, 28597617);
    lemma_digits_step(0xab729a337966e42e, 28597617, 1, 0xe5a49a9cedd319c4, 57195234);
    lemma_number_digits(0xe7159475a2caf000, 26);
    assert(63 * pow2(26) + 57195234 == 4285053666);
}

/// Factor 12 of the table between two powers of two, after 26
/// squarings.
proof fn lemma_factor_power_12()
    ensures
        pow2(4275140037) <= sq_pow(0xd097f3bdfd2f2000, 26) < pow2(4275140039),
{
    lemma2_to64();
    lemma2_to64_rest();
    lemma_floor_log2_is(0xd097f3bdfd2f2000, 63);
    assert(mantissa(0xd097f3bdfd2f2000) == 0xd097f3bdfd2f2000);
    lemma_digits_step(0xd097f3bdfd2f2000, 0, 26, 0xa9f746462d9f7d3f, 1);
    lemma_digits_step(0xa9f746462d9f7d3f, 1, 25, 0xe1b0d342ade622a2, 2);
    lemma_digits_step(0xe1b0d342ade622a2, 2, 24, 0xc6f84d7e5fb4a157, 5);
    lemma_digits_step(0xc6f84d7e5fb4a157, 5, 23, 0x9aa508b5b85a1b80, 11);
    lemma_digits_step(0x9aa508b5b85a1b80, 11, 22, 0xbad5f1bdb8afd382, 22);
    lemma_digits_step(0xbad5f1bdb8afd382, 22, 21, 0x885b9613da5b9644, 45);
    lemma_digits_step(0x885b9613da5b9644, 45, 20, 0x9142e0724433a465, 90);
    lemma_digits_step(0x9142e0724433a465, 90, 19, 0xa4d9a773e1ebaa6c, 180);
    lemma_digits_step(0xa4d9a773e1ebaa6c, 180, 18, 0xd44f2f3392e6b22f, 360);
    lemma_digits_step(0xd44f2f3392e6b22f, 360, 17, 0xb0133eab95d6bbd4, 721);
    lemma_digits_step(0xb0133eab95d6bbd4, 721, 16, 0xf234ef3c95ae1f71, 1442);
    lemma_digits_step(0xf234ef3c95ae1f71, 1442, 15, 0xe5281f409b2c3000, 2885);
    lemma_digits_step(0xe5281f409b2c3000, 2885, 14, 0xcd20ce335d9e4191, 5771);
    lemma_digits_step(0xcd20ce335d9e4191, 5771, 13, 0xa45d8e7276dd918b, 11543);
    lemma_digits_step(0xa45d8e7276dd918b, 11543, 12, 0xd3100166ed72dd03, 23086);
    lemma_digits_step(0xd3100166ed72dd03, 23086, 11, 0xae03634fd84afdeb, 46173);
    lemma_digits_step(0xae03634fd84afdeb, 46173, 10, 0xec91361808d7ba3d, 92346);
    lemma_digits_step(0xec91361808d7ba3d, 92346, 9, 0xda9c0e1aa2f5e9be, 184693);
    lemma_digits_step(0xda9c0e1aa2f5e9be, 184693, 8, 0xbaae27268ec85a64, 369387);
    lemma_digits_step(0xbaae27268ec85a64, 369387, 7, 0x8821875d45e20103, 738775);
    lemma_digits_step(0x8821875d45e20103, 738775, 6, 0x90c7486e8fbf4e0f, 1477550);
    lemma_digits_step(0x90c7486e8fbf4e0f, 1477550, 5, 0xa3c1993c243227af, 2955100);
    lemma_digits_step(0xa3c1993c243227af, 2955100, 4, 0xd1803715fcfec71b, 5910200);
    lemma_digits_step(0xd1803715fcfec71b, 5910200, 3, 0xab729a2908ef747a, 11820401);
    lemma_digits_step(0xab729a2908ef747a, 11820401, 2, 0xe5a49a80f6a28065, 23640802);
    lemma_digits_step(0xe5a49a80f6a28065, 23640802, 1, 0xcdffe6410bba239c, 47281605);
    lemma_number_digits(0xd097f3bdfd2f2000, 26);
    assert(63 * pow2(26) + 47281605 == 4275140037);
}

/// Factor 13 of the table between two powers of two, after 26
/// squarings.
proof fn lemma_factor_power_13()
    ensures
        pow2(4255312779) <= sq_pow(0xa9f746462d9f8000, 26) < pow2(4255312781),
{
    lemma2_to64();
    lemma2_to64_rest();
    lemma_floor_log2_is(0xa9f746462d9f8000, 63);
    assert(mantissa(0xa9f746462d9f8000) == 0xa9f746462d9f8000);
    lemma_digits_step(0xa9f746462d9f8000, 0, 26, 0xe1b0d342ade629f2, 0);
    lemma_digits_step(0xe1b0d342ade629f2, 0, 25, 0xc6f84d7e5fb4ae3c, 1);
    lemma_digits_step(0xc6f84d7e5fb4ae3c, 1, 24, 0x9aa508b5b85a2f8b, 3);
    lemma_digits_step(0x9aa508b5b85a2f8b, 3, 23, 0xbad5f1bdb8b003f0, 6);
    lemma_digits_step(0xbad5f1bdb8b003f0, 6, 22, 0x885b9613da5bdcf4, 13);
    lemma_digits_step(0x885b9613da5bdcf4, 13, 21, 0x9142e07244343b00, 26);
    lemma_digits_step(0x9142e07244343b00, 26, 20, 0xa4d9a773e1ed0041, 52);
    lemma_digits_step(0xa4d9a773e1ed0041, 52, 19, 0xd44f2f3392ea22ab, 104);
    lemma_digits_step(0xd44f2f3392ea22ab, 104, 18, 0xb0133eab95dc7042, 209);
    lemma_digits_step(0xb0133eab95dc7042, 209, 17, 0xf234ef3c95bdd157, 418);
    lemma_digits_step(0xf234ef3c95bdd157, 418, 16, 0xe5281f409b49e2d4, 837);
    lemma_digits_step(0xe5281f409b49e2d4, 837, 15, 0xcd20ce335dd36cd0, 1675);
    lemma_digits_step(0xcd20ce335dd36cd0, 1675, 14, 0xa45d8e727732c66f, 3351);
    lemma_digits_step(0xa45d8e727732c66f, 3351, 13, 0xd3100166ee4db11a, 6702);
    lemma_digits_step(0xd3100166ee4db11a, 6702, 12, 0xae03634fd9b3d2e6, 13405);
    lemma_digits_step(0xae03634fd9b3d2e6, 13405, 11, 0xec9136180cacd061, 26810);
    lemma_digits_step(0xec9136180cacd061, 26810, 10, 0xda9c0e1aaa0b2392, 53621);
    lemma_digits_step(0xda9c0e1aaa0b2392, 53621, 9, 0xbaae27269ae12388, 107243);
    lemma_digits_step(0xbaae27269ae12388, 107243, 8, 0x8821875d57867ab0, 214487);
    lemma_digits_step(0x8821875d57867ab0, 214487, 7, 0x90c7486eb5460ebe, 428974);
    lemma_digits_step(0x90c7486eb5460ebe, 428974, 6, 0xa3c1993c791632b0, 857948);
    lemma_digits_step(0xa3c1993c791632b0, 857948, 5, 0xd1803716d6345e14, 1715896);
    lemma_digits_step(0xd1803716d6345e14, 1715896, 4, 0xab729a2a6c72880e, 3431793);
    lemma_digits_step(0xab729a2a6c72880e, 3431793, 3, 0xe5a49a84af01528a, 6863586);
    lemma_digits_step(0xe5a49a84af01528a, 6863586, 2, 0xcdffe647b85c7eaf, 13727173);
    lemma_digits_step(0xcdffe647b85c7eaf, 13727173, 1, 0xa5c3d69b6f4a5e86, 27454347);
    lemma_number_digits(0xa9f746462d9f8000, 26);
    assert(63 * pow2(26) + 27454347 == 4255312779);
}

/// Factor 14 of the table between two powers of two, after 26
/// squarings.
proof fn lemma_factor_power_14()
    ensures
        pow2(4215658262) <= sq_pow(0x70d869a156f31c00, 26) < pow2(4215658264),
{
    lemma2_to64();
    lemma2_to64_rest();
    lemma_floor_log2_is(0x70d869a156f31c00, 62);
    assert(mantissa(0x70d869a156f31c00) == 0xe1b0d342ade63800);
    lemma_digits_step(0xe1b0d342ade63800, 0, 26, 0xc6f84d7e5fb4c704, 1);
    lemma_digits_step(0xc6f84d7e5fb4c704, 1, 25, 0x9aa508b5b85a5610, 3);
    lemma_digits_step(0x9aa508b5b85a5610, 3, 24, 0xbad5f1bdb8b06104, 6);
    lemma_digits_step(0xbad5f1bdb8b06104, 6, 23, 0x885b9613da5c64d1, 13);
    lemma_digits_step(0x885b9613da5c64d1, 13, 22, 0x9142e07244355c78, 26);
    lemma_digits_step(0x9142e07244355c78, 26, 21, 0xa4d9a773e1ef9143, 52);
    lemma_digits_step(0xa4d9a773e1ef9143, 52, 20, 0xd44f2f3392f0befa, 104);
    lemma_digits_step(0xd44f2f3392f0befa, 104, 19, 0xb0133eab95e7673c, 209);
    lemma_digits_step(0xb0133eab95e7673c, 209, 18, 0xf234ef3c95dbfbd3, 418);
    lemma_digits_step(0xf234ef3c95dbfbd3, 418, 17, 0xe5281f409b82f7a0, 837);
    lemma_digits_step(0xe5281f409b82f7a0, 837, 16, 0xcd20ce335e399de9, 1675);
    lemma_digits_step(0xcd20ce335e399de9, 1675, 15, 0xa45d8e7277d68b42, 3351);
    lemma_digits_step(0xa45d8e7277d68b42, 3351, 14, 0xd3100166eff248dd, 6702);
    lemma_digits_step(0xd3100166eff248dd, 6702, 13, 0xae03634fdc6959a9, 13405);
    lemma_digits_step(0xae03634fdc6959a9, 13405, 12, 0xec913618140a7b7a, 26810);
    lemma_digits_step(0xec913618140a7b7a, 26810, 11, 0xda9c0e1ab7a83240, 53621);
    lemma_digits_step(0xda9c0e1ab7a83240, 53621, 10, 0xbaae2726b2213972, 107243);
    lemma_digits_step(0xbaae2726b2213972, 107243, 9, 0x8821875d796f3cc3, 214487);
    lemma_digits_step(0x8821875d796f3cc3, 214487, 8, 0x90c7486efd666ee3, 428974);
    lemma_digits_step(0x90c7486efd666ee3, 428974, 7, 0xa3c1993d1c3fa150, 857948);
    lemma_digits_step(0xa3c1993d1c3fa150, 857948, 6, 0xd180371877af736f, 1715896);
    lemma_digits_step(0xd180371877af736f, 1715896, 5, 0xab729a2d17bfafb2, 3431793);
    lemma_digits_step(0xab729a2d17bfafb2, 3431793, 4, 0xe5a49a8bd57b07e8, 6863586);
    lemma_digits_step(0xe5a49a8bd57b07e8, 6863586, 3, 0xcdffe6548c642b00, 13727173);
    lemma_digits_step(0xcdffe6548c642b00, 13727173, 2, 0xa5c3d6b01484249c, 27454347);
    lemma_digits_step(0xa5c3d6b01484249c, 27454347, 1, 0xd6ac111f7d78e7d4, 54908694);
    lemma_number_digits(0x70d869a156f31c00, 26);
    assert(62 * pow2(26) + 54908694 == 4215658262);
}

/// Factor 15 of the table between two powers of two, after 26
/// squarings.
proof fn lemma_factor_power_15()
    ensures
        pow2(4136349229) <= sq_pow(0x31be135f97ed3200, 26) < pow2(4136349231),
{
    lemma2_to64();
    lemma2_to64_rest();
    lemma_floor_log2_is(0x31be135f97ed3200, 61);
    assert(mantissa(0x31be135f97ed3200) == 0xc6f84d7e5fb4c800);
    lemma_digits_step(0xc6f84d7e5fb4c800, 0, 26, 0x9aa508b5b85a5798, 1);
    lemma_digits_step(0x9aa508b5b85a5798, 1, 25, 0xbad5f1bdb8b064b7, 2);
    lemma_digits_step(0xbad5f1bdb8b064b7, 2, 24, 0x885b9613da5c6a37, 5);
    lemma_digits_step(0x885b9613da5c6a37, 5, 23, 0x9142e072443567f8, 10);
    lemma_digits_step(0x9142e072443567f8, 10, 22, 0xa4d9a773e1efab5d, 20);
    lemma_digits_step(0xa4d9a773e1efab5d, 20, 21, 0xd44f2f3392f10236, 40);
    lemma_digits_step(0xd44f2f3392f10236, 40, 20, 0xb0133eab95e7d6c1, 81);
    lemma_digits_step(0xb0133eab95e7d6c1, 81, 19, 0xf234ef3c95dd2ea2, 162);
    lemma_digits_step(0xf234ef3c95dd2ea2, 162, 18, 0xe5281f409b853c2e, 325);
    lemma_digits_step(0xe5281f409b853c2e, 325, 17, 0xcd20ce335e3dad45, 651);
    lemma_digits_step(0xcd20ce335e3dad45, 651, 16, 0xa45d8e7277dd0ce5, 1303);
    lemma_digits_step(0xa45d8e7277dd0ce5, 1303, 15, 0xd3100166f002fe91, 2606);
    lemma_digits_step(0xd3100166f002fe91, 2606, 14, 0xae03634fdc84e747, 5213);
    lemma_digits_step(0xae03634fdc84e747, 5213, 13, 0xec913618145565f5, 10426);
    lemma_digits_step(0xec913618145565f5, 10426, 12, 0xda9c0e1ab832a791, 20853);
    lemma_digits_step(0xda9c0e1ab832a791, 20853, 11, 0xbaae2726b30db20e, 41707);
    lemma_digits_step(0xbaae2726b30db20e, 41707, 10, 0x8821875d7ac81dc2, 83415);
    lemma_digits_step(0x8821875d7ac81dc2, 83415, 9, 0x90c7486f004401ae, 166830);
    lemma_digits_step(0x90c7486f004401ae, 166830, 8, 0xa3c1993d22bb17cb, 333660);
    lemma_digits_step(0xa3c1993d22bb17cb, 333660, 7, 0xd180371888458107, 667320);
    lemma_digits_step(0xd180371888458107, 667320, 6, 0xab729a2d32e54f16, 1334641);
    lemma_digits_step(0xab729a2d32e54f16, 1334641, 5, 0xe5a49a8c1e342a31, 2669282);
    lemma_digits_step(0xe5a49a8c1e342a31, 2669282, 4, 0xcdffe6550edce759, 5338565);
    lemma_digits_step(0xcdffe6550edce759, 5338565, 3, 0xa5c3d6b0e67e5991, 10677131);
    lemma_digits_step(0xa5c3d6b0e67e5991, 10677131, 2, 0xd6ac11219d547f14, 21354262);
    lemma_digits_step(0xd6ac11219d547f14, 21354262, 1, 0xb404204b395a294f, 42708525);
    lemma_number_digits(0x31be135f97ed3200, 26);
    assert(61 * pow2(26) + 42708525 == 4136349229);
}

/// Factor 16 of the table between two powers of two, after 26
/// squarings.
proof fn lemma_factor_power_16()
    ensures
        pow2(3977731162) <= sq_pow(0x9aa508b5b85a500, 26) < pow2(3977731164),
{
    lemma2_to64();
    lemma2_to64_rest();
    lemma_floor_log2_is(0x9aa508b5b85a500, 59);
    assert(mantissa(0x9aa508b5b85a500) == 0x9aa508b5b85a5000);
    lemma_digits_step(0x9aa508b5b85a5000, 0, 26, 0xbad5f1bdb8b0525d, 0);
    lemma_digits_step(0xbad5f1bdb8b0525d, 0, 25, 0x885b9613da5c4f6e, 1);
    lemma_digits_step(0x885b9613da5c4f6e, 1, 24, 0x9142e07244352ee7, 2);
    lemma_digits_step(0x9142e07244352ee7, 2, 23, 0xa4d9a773e1ef29d7, 4);
    lemma_digits_step(0xa4d9a773e1ef29d7, 4, 22, 0xd44f2f3392efb496, 8);
    lemma_digits_step(0xd44f2f3392efb496, 8, 21, 0xb0133eab95e5ad61, 17);
    lemma_digits_step(0xb0133eab95e5ad61, 17, 20, 0xf234ef3c95d73c33, 34);
    lemma_digits_step(0xf234ef3c95d73c33, 34, 19, 0xe5281f409b79fb5f, 69);
    lemma_digits_step(0xe5281f409b79fb5f, 69, 18, 0xcd20ce335e2987cc, 139);
    lemma_digits_step(0xcd20ce335e2987cc, 139, 17, 0xa45d8e7277bcc3b8, 279);
    lemma_digits_step(0xa45d8e7277bcc3b8, 279, 16, 0xd3100166efb013dc, 558);
    lemma_digits_step(0xd3100166efb013dc, 558, 15, 0xae03634fdbfc2e02, 1117);
    lemma_digits_step(0xae03634fdbfc2e02, 1117, 14, 0xec91361812e1a704, 2234);
    lemma_digits_step(0xec91361812e1a704, 2234, 13, 0xda9c0e1ab58399c9, 4469);
    lemma_digits_step(0xda9c0e1ab58399c9, 4469, 12, 0xbaae2726ae7848f1, 8939);
    lemma_digits_step(0xbaae2726ae7848f1, 8939, 11, 0x8821875d7418c482, 17879);
    lemma_digits_step(0x8821875d7418c482, 17879, 10, 0x90c7486ef20be378, 35758);
    lemma_digits_step(0x90c7486ef20be378, 35758, 9, 0xa3c1993d02908d3c, 71516);
    lemma_digits_step(0xa3c1993d02908d3c, 71516, 8, 0xd180371835f7dad4, 143032);
    lemma_digits_step(0xd180371835f7dad4, 143032, 7, 0xab729a2cac3014a3, 286065);
    lemma_digits_step(0xab729a2cac3014a3, 286065, 6, 0xe5a49a8ab556bab3, 572130);
    lemma_digits_step(0xe5a49a8ab556bab3, 572130, 5, 0xcdffe6528770ae77, 1144261);
    lemma_digits_step(0xcdffe6528770ae77, 1144261, 4, 0xa5c3d6acd48cafdf, 2288523);
    lemma_digits_step(0xa5c3d6acd48cafdf, 2288523, 3, 0xd6ac1117129d2225, 4577046);
    lemma_digits_step(0xd6ac1117129d2225, 4577046, 2, 0xb40420398b43cac8, 9154093);
    lemma_digits_step(0xb40420398b43cac8, 9154093, 1, 0xfd2b9ac3e3643e0f, 18308186);
    lemma_number_digits(0x9aa508b5b85a500, 26);
    assert(59 * pow2(26) + 18308186 == 3977731162);
}

/// Factor 17 of the table between two powers of two, after 26
/// squarings.
proof fn lemma_factor_power_17()
    ensures
        pow2(3660495029) <= sq_pow(0x5d6af8dedc582c, 26) < pow2(3660495031),
{
    lemma2_to64();
    lemma2_to64_rest();
    lemma_floor_log2_is(0x5d6af8dedc582c, 54);
    assert(mantissa(0x5d6af8dedc582c) == 0xbad5f1bdb8b05800);
    lemma_digits_step(0xbad5f1bdb8b05800, 0, 26, 0x885b9613da5c57a8, 1);
    lemma_digits_step(0x885b9613da5c57a8, 1, 25, 0x9142e0724435406e, 2);
    lemma_digits_step(0x9142e0724435406e, 2, 24, 0xa4d9a773e1ef519f, 4);
    lemma_digits_step(0xa4d9a773e1ef519f, 4, 23, 0xd44f2f3392f01b0e, 8);
    lemma_digits_step(0xd44f2f3392f01b0e, 8, 22, 0xb0133eab95e65757, 17);
    lemma_digits_step(0xb0133eab95e65757, 17, 21, 0xf234ef3c95d90fcb, 34);
    lemma_digits_step(0xf234ef3c95d90fcb, 34, 20, 0xe5281f409b7d702c, 69);
    lemma_digits_step(0xe5281f409b7d702c, 69, 19, 0xcd20ce335e2fb7d8, 139);
    lemma_digits_step(0xcd20ce335e2fb7d8, 139, 18, 0xa45d8e7277c6ae41, 279);
    lemma_digits_step(0xa45d8e7277c6ae41, 279, 17, 0xd3100166efc98b5a, 558);
    lemma_digits_step(0xd3100166efc98b5a, 558, 16, 0xae03634fdc262c2b, 1117);
    lemma_digits_step(0xae03634fdc262c2b, 1117, 15, 0xec9136181353d43d, 2234);
    lemma_digits_step(0xec9136181353d43d, 2234, 14, 0xda9c0e1ab6569eb1, 4469);
    lemma_digits_step(0xda9c0e1ab6569eb1, 4469, 13, 0xbaae2726afe0ae91, 8939);
    lemma_digits_step(0xbaae2726afe0ae91, 8939, 12, 0x8821875d76266287, 17879);
    lemma_digits_step(0x8821875d76266287, 17879, 11, 0x90c7486ef669e6a0, 35758);
    lemma_digits_step(0x90c7486ef669e6a0, 35758, 10, 0xa3c1993d0c71ad99, 71516);
    lemma_digits_step(0xa3c1993d0c71ad99, 71516, 9, 0xd18037184f3f1bce, 143032);
    lemma_digits_step(0xd18037184f3f1bce, 143032, 8, 0xab729a2cd58fbede, 286065);
    lemma_digits_step(0xab729a2cd58fbede, 286065, 7, 0xe5a49a8b242c6b9b, 572130);
    lemma_digits_step(0xe5a49a8b242c6b9b, 572130, 6, 0xcdffe6534e498492, 1144261);
    lemma_digits_step(0xcdffe6534e498492, 1144261, 5, 0xa5c3d6ae1491808f, 2288523);
    lemma_digits_step(0xa5c3d6ae1491808f, 2288523, 4, 0xd6ac111a4f7ccc4a, 4577046);
    lemma_digits_step(0xd6ac111a4f7ccc4a, 4577046, 3, 0xb404203ef963f681, 9154093);
    lemma_digits_step(0xb404203ef963f681, 9154093, 2, 0xfd2b9ad329785737, 18308186);
    lemma_digits_step(0xfd2b9ad329785737, 18308186, 1, 0xfa5f3772c08a86e2, 36616373);
    lemma_number_digits(0x5d6af8dedc582c, 26);
    assert(54 * pow2(26) + 36616373 == 3660495029);
}

/// Every factor of the table between two powers of two, after 26
/// squarings: `2^(2^32 - gain) <= factor^(2^26) < 2^(2^32 - gain + 2)`.
proof fn lemma_factor_power(i: nat)
    requires
        i < 18,
    ensures
        2 <= factor_gain(i) <= 4294967296,
        pow2((4294967296 - factor_gain(i)) as nat) <= sq_pow(tick_factor(i), 26),
        sq_pow(tick_factor(i), 26) < pow2((4294967296 - factor_gain(i) + 2) as nat),
{
    if i == 0 {
        lemma_factor_power_0();
    } else if i == 1 {
        lemma_factor_power_1();
    } else if i == 2 {
        lemma_factor_power_2();
    } else if i == 3 {
        lemma_factor_power_3();
    } else if i == 4 {
        lemma_factor_power_4();
    } else if i == 5 {
        lemma_factor_power_5();
    } else if i == 6 {
        lemma_factor_power_6();
    } else if i == 7 {
        lemma_factor_power_7();
    } else if i == 8 {
        lemma_factor_power_8();
    } else if i == 9 {
        lemma_factor_power_9();
    } else if i == 10 {
        lemma_factor_power_10();
    } else if i == 11 {
        lemma_factor_power_11();
    } else if i == 12 {
        lemma_factor_power_12();
    } else if i == 13 {
        lemma_factor_power_13();
    } else if i == 14 {
        lemma_factor_power_14();
    } else if i == 15 {
        lemma_factor_power_15();
    } else if i == 16 {
        lemma_factor_power_16();
    } else if i == 17 {
        lemma_factor_power_17();
    }
}

/// The margins of neighbouring positions differ by the weight of the bit
/// between them.
proof fn lemma_margin_steps(i: nat)
    requires
        i < 18,
    ensures
        pow2(i) * 18889465931478580854784 - (factor_gain(i) - 2) * 3902266830438268928 + upper_margin(i + 1) == upper_margin(i),
        (factor_gain(i) + 1) * 3902266830438268928 - pow2(i) * 18889465931478580854784 + lower_margin(i + 1) == lower_margin(i),
        upper_margin(i + 1) <= upper_margin(i),
        lower_margin(i + 1) <= lower_margin(i),
{
    lemma2_to64();
    if i == 0 {
        assert(1 * 18889465931478580854784 - (4841 - 2) * 3902266830438268928 + 92819635026103631872 == 99216374013901144064);
        assert((4841 + 1) * 3902266830438268928 - 1 * 18889465931478580854784 + 106195973326248083456 == 111506034829765378048);
    } else if i == 1 {
        assert(2 * 18889465931478580854784 - (9682 - 2) * 3902266830438268928 + 87830690711385145344 == 92819635026103631872);
        assert((9682 + 1) * 3902266830438268928 - 2 * 18889465931478580854784 + 99478117149651763200 == 106195973326248083456);
    } else if i == 2 {
        assert(4 * 18889465931478580854784 - (19363 - 2) * 3902266830438268928 + 81755068912386441216 == 87830690711385145344);
        assert((19363 + 1) * 3902266830438268928 - 4 * 18889465931478580854784 + 93846938457335660544 == 99478117149651763200);
    } else if i == 3 {
        assert(8 * 18889465931478580854784 - (38726 - 2) * 3902266830438268928 + 77408358975265570816 == 81755068912386441216);
        assert((38726 + 1) * 3902266830438268928 - 8 * 18889465931478580854784 + 86486847903141724160 == 93846938457335660544);
    } else if i == 4 {
        assert(16 * 18889465931478580854784 - (77451 - 2) * 3902266830438268928 + 72617205931462098944 == 77408358975265570816);
        assert((77451 + 1) * 3902266830438268928 - 16 * 18889465931478580854784 + 79571200455630389248 == 86486847903141724160);
    } else if i == 5 {
        assert(32 * 18889465931478580854784 - (154901 - 2) * 3902266830438268928 + 66937166674293424128 == 72617205931462098944);
        assert((154901 + 1) * 3902266830438268928 - 32 * 18889465931478580854784 + 73544439221484257280 == 79571200455630389248);
    } else if i == 6 {
        assert(64 * 18889465931478580854784 - (309801 - 2) * 3902266830438268928 + 59479354990394343424 == 66937166674293424128);
        assert((309801 + 1) * 3902266830438268928 - 64 * 18889465931478580854784 + 69295450414068531200 == 73544439221484257280);
    } else if i == 7 {
        assert(128 * 18889465931478580854784 - (619602 - 2) * 3902266830438268928 + 52368265283472719872 == 59479354990394343424);
        assert((619602 + 1) * 3902266830438268928 - 128 * 18889465931478580854784 + 64699739629675347968 == 69295450414068531200);
    } else if i == 8 {
        assert(256 * 18889465931478580854784 - (1239204 - 2) * 3902266830438268928 + 45950619530506010624 == 52368265283472719872);
        assert((1239204 + 1) * 3902266830438268928 - 256 * 18889465931478580854784 + 59410584891327250432 == 64699739629675347968);
    } else if i == 9 {
        assert(512 * 18889465931478580854784 - (2478408 - 2) * 3902266830438268928 + 40919861685449129984 == 45950619530506010624);
        assert((2478408 + 1) * 3902266830438268928 - 512 * 18889465931478580854784 + 52734542245069324288 == 59410584891327250432);
    } else if i == 10 {
        assert(1024 * 18889465931478580854784 - (4956815 - 2) * 3902266830438268928 + 34760612825773637632 == 40919861685449129984);
        assert((4956815 + 1) * 3902266830438268928 - 1024 * 18889465931478580854784 + 47186990613430009856 == 52734542245069324288);
    } else if i == 11 {
        assert(2048 * 18889465931478580854784 - (9913630 - 2) * 3902266830438268928 + 30246648767299190784 == 34760612825773637632);
        assert((9913630 + 1) * 3902266830438268928 - 2048 * 18889465931478580854784 + 39994154180589649920 == 47186990613430009856);
    } else if i == 12 {
        assert(4096 * 18889465931478580854784 - (19827259 - 2) * 3902266830438268928 + 25120987480788566016 == 30246648767299190784);
        assert((19827259 + 1) * 3902266830438268928 - 4096 * 18889465931478580854784 + 33413014975785467904 == 39994154180589649920);
    } else if i == 13 {
        assert(8192 * 18889465931478580854784 - (39654517 - 2) * 3902266830438268928 + 18771931738205585408 == 25120987480788566016);
        assert((39654517 + 1) * 3902266830438268928 - 8192 * 18889465931478580854784 + 28055270227053641728 == 33413014975785467904);
    } else if i == 14 {
        assert(16384 * 18889465931478580854784 - (79309034 - 2) * 3902266830438268928 + 13878353913916162048 == 18771931738205585408);
        assert((79309034 + 1) * 3902266830438268928 - 16384 * 18889465931478580854784 + 21242047560028258304 == 28055270227053641728);
    } else if i == 15 {
        assert(32768 * 18889465931478580854784 - (158618067 - 2) * 3902266830438268928 + 7993465095775584256 == 13878353913916162048);
        assert((158618067 + 1) * 3902266830438268928 - 32768 * 18889465931478580854784 + 15420135886854029312 == 21242047560028258304);
    } else if i == 16 {
        assert(65536 * 18889465931478580854784 - (317236134 - 2) * 3902266830438268928 + 4028221120370966528 == 7993465095775584256);
        assert((317236134 + 1) * 3902266830438268928 - 65536 * 18889465931478580854784 + 7678579370943840256 == 15420135886854029312);
    } else if i == 17 {
        assert(131072 * 18889465931478580854784 - (634472267 - 2) * 3902266830438268928 + 0 == 4028221120370966528);
        assert((634472267 + 1) * 3902266830438268928 - 131072 * 18889465931478580854784 + 0 == 7678579370943840256);
    }
}

/// The gains of the set bits of `bits`, each less two: by at least this
/// power of two the factors of `bits` lower a ratio, after 26 squarings.
/// The lowest bit of `bits` stands for factor `i`.
pub open spec fn upper_gain(bits: nat, i: nat) -> nat
    decreases 18 - i,
{
    if i >= 18 {
        0
    } else if bits % 2 == 1 {
        (factor_gain(i) - 2) as nat + upper_gain(bits / 2, i + 1)
    } else {
        upper_gain(bits / 2, i + 1)
    }
}

/// The gains of the set bits of `bits`, each plus one: by at most this
/// power of two the factors of `bits` lower a ratio, after 26 squarings.
pub open spec fn lower_gain(bits: nat, i: nat) -> nat
    decreases 18 - i,
{
    if i >= 18 {
        0
    } else if bits % 2 == 1 {
        factor_gain(i) + 1 + lower_gain(bits / 2, i + 1)
    } else {
        lower_gain(bits / 2, i + 1)
    }
}

/// `2^64`, squared 26 times.
proof fn lemma_power_of_one()
    ensures
        sq_pow(Q64 as nat, 26) == pow2(4294967296),
{
    lemma2_to64();
    lemma_sq_pow_of_pow2(64, 26);
    assert(64 * pow2(26) == 4294967296);
}

/// Scaling by factor `i` lowers the power of a ratio by at least the gain
/// of the factor, less two.
proof fn lemma_scaled_power_upper(ratio: nat, i: nat)
    requires
        i < 18,
    ensures
        factor_gain(i) >= 2,
        sq_pow(ratio * tick_factor(i) / (Q64 as nat), 26) * pow2((factor_gain(i) - 2) as nat)
            <= sq_pow(ratio, 26),
{
    let c = tick_factor(i);
    let q = Q64 as nat;
    let gain = factor_gain(i);
    let scaled = ratio * c / q;
    lemma_factor_power(i);
    lemma_power_of_one();
    assert(scaled * q <= ratio * c) by (nonlinear_arith)
        requires
            scaled == ratio * c / q,
            q > 0,
    ;
    lemma_sq_pow_ordered(scaled * q, ratio * c, 26);
    lemma_sq_pow_of_product(scaled, q, 26);
    lemma_sq_pow_of_product(ratio, c, 26);
    let rest = (4294967296 - gain + 2) as nat;
    lemma_pow2_adds((gain - 2) as nat, rest);
    lemma_pow2_pos(rest);
    let bs = sq_pow(scaled, 26) as int;
    let br = sq_pow(ratio, 26) as int;
    let bc = sq_pow(c, 26) as int;
    let low = pow2((gain - 2) as nat) as int;
    let high = pow2(rest) as int;
    assert(bs * low <= br) by (nonlinear_arith)
        requires
            bs * (low * high) <= br * bc,
            bc < high,
            high > 0,
            br >= 0,
            bs >= 0,
            low >= 0,
    {
        assert(br * bc <= br * high);
        assert((bs * low) * high == bs * (low * high));
    }
}

/// Scaling by factor `i` lowers the power of a ratio by at most the gain
/// of the factor, plus one, as long as the scaled ratio is not small.
proof fn lemma_scaled_power_lower(ratio: nat, i: nat)
    requires
        i < 18,
        ratio * tick_factor(i) / (Q64 as nat) + 1 >= 134217728,
    ensures
        sq_pow(ratio, 26) <= sq_pow(ratio * tick_factor(i) / (Q64 as nat), 26) * pow2(
            factor_gain(i) + 1,
        ),
{
    let c = tick_factor(i);
    let q = Q64 as nat;
    let gain = factor_gain(i);
    let scaled = ratio * c / q;
    lemma2_to64();
    lemma_factor_power(i);
    lemma_power_of_one();
    assert(ratio * c <= (scaled + 1) * q) by (nonlinear_arith)
        requires
            scaled == ratio * c / q,
            q > 0,
    ;
    lemma_sq_pow_ordered(ratio * c, (scaled + 1) * q, 26);
    lemma_sq_pow_of_product(ratio, c, 26);
    lemma_sq_pow_of_product(scaled + 1, q, 26);
    lemma_sq_pow_of_successor(scaled, 26);
    let rest = (4294967296 - gain) as nat;
    lemma_pow2_adds(gain, rest);
    lemma_pow2_pos(rest);
    lemma_pow2_unfold(gain + 1);
    let bs = sq_pow(scaled, 26) as int;
    let bn = sq_pow(scaled + 1, 26) as int;
    let br = sq_pow(ratio, 26) as int;
    let bc = sq_pow(c, 26) as int;
    let low = pow2(gain) as int;
    let high = pow2(rest) as int;
    assert(br <= bs * (2 * low)) by (nonlinear_arith)
        requires
            br * bc <= bn * (low * high),
            bn <= 2 * bs,
            high <= bc,
            high > 0,
            br >= 0,
            bs >= 0,
            low >= 0,
    {
        assert(br * high <= br * bc);
        assert(bn * (low * high) <= (2 * bs) * (low * high));
        assert((2 * bs) * (low * high) == (bs * (2 * low)) * high);
    }
}

/// The factors of `bits` lower the power of a ratio by at least their
/// upper gain.
proof fn lemma_apply_power_upper(bits: nat, i: nat, ratio: nat)
    requires
        i <= 18,
        bits < pow2((18 - i) as nat),
    ensures
        sq_pow(apply_factors(bits, i, ratio), 26) * pow2(upper_gain(bits, i)) <= sq_pow(
            ratio,
            26,
        ),
    decreases 18 - i,
{
    lemma2_to64();
    if i == 18 {
        lemma_apply_no_bits(18, ratio);
        assert(sq_pow(ratio, 26) * 1 == sq_pow(ratio, 26));
    } else {
        lemma_pow2_unfold((18 - i) as nat);
        if bits % 2 == 1 {
            let scaled = ratio * tick_factor(i) / (Q64 as nat);
            let step = (factor_gain(i) - 2) as nat;
            let rest = upper_gain(bits / 2, i + 1);
            lemma_scaled_power_upper(ratio, i);
            lemma_apply_power_upper(bits / 2, i + 1, scaled);
            lemma_pow2_adds(step, rest);
            let bo = sq_pow(apply_factors(bits, i, ratio), 26) as int;
            let bs = sq_pow(scaled, 26) as int;
            let br = sq_pow(ratio, 26) as int;
            let ps = pow2(step) as int;
            let pr = pow2(rest) as int;
            assert(bo * (ps * pr) <= br) by (nonlinear_arith)
                requires
                    bo * pr <= bs,
                    bs * ps <= br,
                    ps >= 0,
            {
                assert((bo * pr) * ps <= bs * ps);
                assert(bo * (ps * pr) == (bo * pr) * ps);
            }
        } else {
            lemma_apply_power_upper(bits / 2, i + 1, ratio);
        }
    }
}

/// The factors of `bits` lower the power of a ratio by at most their lower
/// gain, as long as the ratio that they give is not small.
proof fn lemma_apply_power_lower(bits: nat, i: nat, ratio: nat)
    requires
        i <= 18,
        bits < pow2((18 - i) as nat),
        apply_factors(bits, i, ratio) + 1 >= 134217728,
    ensures
        sq_pow(ratio, 26) <= sq_pow(apply_factors(bits, i, ratio), 26) * pow2(
            lower_gain(bits, i),
        ),
    decreases 18 - i,
{
    lemma2_to64();
    if i == 18 {
        lemma_apply_no_bits(18, ratio);
        assert(sq_pow(ratio, 26) * 1 == sq_pow(ratio, 26));
    } else {
        lemma_pow2_unfold((18 - i) as nat);
        if bits % 2 == 1 {
            let scaled = ratio * tick_factor(i) / (Q64 as nat);
            let step = factor_gain(i) + 1;
            let rest = lower_gain(bits / 2, i + 1);
            lemma_apply_ceiling(bits / 2, i + 1, scaled);
            lemma_scaled_power_lower(ratio, i);
            lemma_apply_power_lower(bits / 2, i + 1, scaled);
            lemma_pow2_adds(step, rest);
            let bo = sq_pow(apply_factors(bits, i, ratio), 26) as int;
            let bs = sq_pow(scaled, 26) as int;
            let br = sq_pow(ratio, 26) as int;
            let ps = pow2(step) as int;
            let pr = pow2(rest) as int;
            assert(br <= bo * (ps * pr)) by (nonlinear_arith)
                requires
                    bs <= bo * pr,
                    br <= bs * ps,
                    ps >= 0,
            {
                assert(bs * ps <= (bo * pr) * ps);
                assert(bo * (ps * pr) == (bo * pr) * ps);
            }
        } else {
            lemma_apply_power_lower(bits / 2, i + 1, ratio);
        }
    }
}

/// The gains of a number follow the number itself within the margins.
proof fn lemma_gains_follow_number(bits: nat, i: nat)
    requires
        i <= 18,
        bits < pow2((18 - i) as nat),
    ensures
        bits * pow2(i) * 18889465931478580854784 - upper_gain(bits, i) * 3902266830438268928 <= upper_margin(i),
        lower_gain(bits, i) * 3902266830438268928 - bits * pow2(i) * 18889465931478580854784 <= lower_margin(i),
    decreases 18 - i,
{
    lemma2_to64();
    if i == 18 {
        assert(bits == 0);
        assert(0 * pow2(18) * 18889465931478580854784 == 0);
    } else {
        lemma_pow2_unfold((18 - i) as nat);
        lemma_pow2_unfold(i + 1);
        lemma_margin_steps(i);
        lemma_gains_follow_number(bits / 2, i + 1);
        let bit = bits % 2;
        let rest = bits / 2;
        let weight = pow2(i) as int;
        assert(bits * pow2(i) == bit * weight + rest * pow2(i + 1)) by (nonlinear_arith)
            requires
                bits == 2 * rest + bit,
                pow2(i + 1) == 2 * pow2(i),
                weight == pow2(i),
        ;
        let here = bit * weight;
        let above = rest * pow2(i + 1);
        assert(bits * pow2(i) * 18889465931478580854784 == here * 18889465931478580854784 + above * 18889465931478580854784);
        if bit == 1 {
            assert(here == weight);
        } else {
            assert(here == 0);
        }
    }
}

/// The highest bit of a price and the sixteen digits of its mantissa,
/// taken together, bound its power between two powers of two.
proof fn lemma_price_power(price: nat)
    requires
        price >= 1,
    ensures
        pow2((floor_log2(price) * 65536 + log2_digits(mantissa(price), 0, 16)) * 1024) <= sq_pow(
            price,
            26,
        ),
        sq_pow(price, 26) < pow2(
            (floor_log2(price) * 65536 + log2_digits(mantissa(price), 0, 16) + 2) * 1024,
        ),
{
    lemma2_to64();
    let exponent = floor_log2(price) * 65536 + log2_digits(mantissa(price), 0, 16);
    lemma_number_digits(price, 16);
    assert(floor_log2(price) * pow2(16) == floor_log2(price) * 65536);
    lemma_sq_pow_twice(price, 16, 10);
    lemma_sq_pow_ordered(pow2(exponent), sq_pow(price, 16), 10);
    lemma_sq_pow_strictly_ordered(sq_pow(price, 16), pow2(exponent + 2), 10);
    lemma_sq_pow_of_pow2(exponent, 10);
    lemma_sq_pow_of_pow2(exponent + 2, 10);
    assert(exponent * pow2(10) == exponent * 1024);
    assert((exponent + 2) * pow2(10) == (exponent + 2) * 1024);
}

/// The logarithm of a price in Q32.32, from the bounds of its power.
proof fn lemma_log_from_exponent(price: nat, exponent: int)
    requires
        exponent == floor_log2(price) * 65536 + log2_digits(mantissa(price), 0, 16),
    ensures
        1024 * (log2_x32(price) * 59543866431248) == (1024 * exponent - 4294967296) * 3902266830438268928,
{
    let msb = floor_log2(price) as int;
    let digits = log2_digits(mantissa(price), 0, 16) as int;
    assert(log2_x32(price) == (msb - 64) * 0x1_0000_0000 + digits * 0x1_0000);
    assert(log2_x32(price) == (exponent - 4194304) * 65536);
}

/// The candidates of the price of a tick at or below zero are the tick
/// and the one before it.
proof fn lemma_candidates_below(number: nat)
    requires
        number <= 221818,
    ensures
        tick_high(tick_ratio(number)) == -(number as int),
        tick_low(tick_ratio(number)) == -(number as int) - 1,
{
    lemma2_to64();
    let price = tick_ratio(number);
    let exponent = floor_log2(price) * 65536 + log2_digits(mantissa(price), 0, 16);
    let up = upper_gain(number, 0);
    let low = lower_gain(number, 0);
    lemma_ratio_bounds(number);
    lemma_ratio_of_max_tick();
    if number < 221818 {
        lemma_ratio_falls(number, 221818);
    }
    lemma_power_of_one();
    lemma_apply_power_upper(number, 0, Q64 as nat);
    lemma_apply_power_lower(number, 0, Q64 as nat);
    lemma_price_power(price);
    lemma_gains_follow_number(number, 0);
    lemma_log_from_exponent(price, exponent as int);
    let power = sq_pow(price, 26) as int;
    // 2^(F * exponent + up) <= power * 2^up <= 2^(2^32)
    lemma_pow2_adds(exponent * 1024, up);
    lemma_pow2_pos(up);
    assert(pow2(exponent * 1024) * pow2(up) <= power * pow2(up)) by (nonlinear_arith)
        requires
            pow2(exponent * 1024) <= power,
            pow2(up) > 0,
    ;
    lemma_pow2_pos(4294967296);
    if exponent * 1024 + up > 4294967296 {
        lemma_pow2_ordered(4294967297, exponent * 1024 + up);
        lemma_pow2_unfold(4294967297);
    }
    assert(exponent * 1024 + up <= 4294967296);
    // 2^(2^32) <= power * 2^low < 2^(F * (exponent + 2) + low)
    lemma_pow2_adds((exponent + 2) * 1024, low);
    lemma_pow2_pos(low);
    assert(power * pow2(low) < pow2((exponent + 2) * 1024) * pow2(low)) by (nonlinear_arith)
        requires
            power < pow2((exponent + 2) * 1024),
            pow2(low) > 0,
    ;
    lemma_pow2_exponent_below(4294967296, (exponent + 2) * 1024 + low);
    assert(4294967296 < (exponent + 2) * 1024 + low);
    assert(number * pow2(0) == number);
    let scaled = 1024 * (log2_x32(price) * 59543866431248);
    assert(scaled <= -up * 3902266830438268928);
    assert(scaled >= (-low - 2047) * 3902266830438268928);
    assert(upper_margin(0) + 1024 * 15793534762490258745 < 1024 * 0x1_0000_0000_0000_0000);
    assert(lower_margin(0) + 2047 * 3902266830438268928 <= 1024 * 15793534762490258745);
    assert(upper_margin(0) < 1024 * 184467440737095516);
    assert(lower_margin(0) + 2047 * 3902266830438268928 + 1024 * 184467440737095516 <= 18889465931478580854784);
}

/// The candidates of the price of a tick above zero are the tick and the
/// one before it.
proof fn lemma_candidates_above(number: nat)
    requires
        1 <= number <= 221818,
    ensures
        tick_high((u128::MAX as nat) / tick_ratio(number)) == number,
        tick_low((u128::MAX as nat) / tick_ratio(number)) == number - 1,
{
    lemma2_to64();
    let ratio = tick_ratio(number);
    let whole = u128::MAX as nat;
    let q = Q64 as nat;
    let price = whole / ratio;
    let exponent = floor_log2(price) * 65536 + log2_digits(mantissa(price), 0, 16);
    let up = upper_gain(number, 0);
    let low = lower_gain(number, 0);
    lemma_ratio_bounds(number);
    lemma_ratio_of_max_tick();
    if number < 221818 {
        lemma_ratio_falls(number, 221818);
    }
    lemma_power_of_one();
    lemma_apply_power_upper(number, 0, q);
    lemma_apply_power_lower(number, 0, q);
    assert(price * ratio <= whole && whole < (price + 1) * ratio && price
        >= 0xffff_ffff_ffff_ffff) by (nonlinear_arith)
        requires
            price == whole / ratio,
            1 <= ratio <= 0x1_0000_0000_0000_0000,
            whole == 0xffff_ffff_ffff_ffff_ffff_ffff_ffff_ffff,
    ;
    lemma_price_power(price);
    lemma_gains_follow_number(number, 0);
    lemma_log_from_exponent(price, exponent as int);
    let power = sq_pow(price, 26) as int;
    let next = sq_pow(price + 1, 26) as int;
    let below = sq_pow(ratio, 26) as int;
    let one = pow2(4294967296) as int;
    let pu = pow2(up) as int;
    let pl = pow2(low) as int;
    lemma_pow2_pos(up);
    lemma_pow2_pos(low);
    lemma_pow2_pos(4294967296);
    assert(q * q == whole + 1) by (nonlinear_arith)
        requires
            q == 0x1_0000_0000_0000_0000,
            whole == 0xffff_ffff_ffff_ffff_ffff_ffff_ffff_ffff,
    ;
    lemma_sq_pow_of_product(q, q, 26);
    // From above: price * ratio < 2^128.
    lemma_sq_pow_strictly_ordered(price * ratio, q * q, 26);
    lemma_sq_pow_of_product(price, ratio, 26);
    assert(power < one * pl) by (nonlinear_arith)
        requires
            power * below < one * one,
            one <= below * pl,
            one > 0,
            power >= 0,
            pl > 0,
            below >= 0,
    {
        assert(power * one <= power * (below * pl));
        assert(power * (below * pl) == (power * below) * pl);
        assert((power * below) * pl < (one * one) * pl);
        assert((one * one) * pl == (one * pl) * one);
    }
    lemma_pow2_adds(4294967296, low);
    lemma_pow2_exponent_below(exponent * 1024, 4294967296 + low);
    // From below: (price + 1) * ratio >= 2^128.
    lemma_sq_pow_ordered(q * q, (price + 1) * ratio, 26);
    lemma_sq_pow_of_product(price + 1, ratio, 26);
    assert(price + 1 >= 2 * pow2(26));
    lemma_sq_pow_of_successor(price, 26);
    assert(one * pu <= 2 * power) by (nonlinear_arith)
        requires
            one * one <= next * below,
            next <= 2 * power,
            below * pu <= one,
            one > 0,
            pu > 0,
            below >= 0,
            power >= 0,
    {
        assert(next * below <= (2 * power) * below);
        assert((one * one) * pu <= ((2 * power) * below) * pu);
        assert(((2 * power) * below) * pu == (2 * power) * (below * pu));
        assert((2 * power) * (below * pu) <= (2 * power) * one);
        assert((one * one) * pu == (one * pu) * one);
    }
    lemma_pow2_adds(4294967296, up);
    lemma_pow2_unfold((exponent + 2) * 1024 + 1);
    lemma_pow2_exponent_below(4294967296 + up, (exponent + 2) * 1024 + 1);
    assert(number * pow2(0) == number);
    let scaled = 1024 * (log2_x32(price) * 59543866431248);
    assert(scaled <= (low - 1) * 3902266830438268928);
    assert(scaled >= (up - 2048) * 3902266830438268928);
    assert(lower_margin(0) - 3902266830438268928 + 1024 * 15793534762490258745 < 18889465931478580854784);
    assert(upper_margin(0) + 2048 * 3902266830438268928 <= 1024 * 15793534762490258745);
    assert(lower_margin(0) - 3902266830438268928 < 1024 * 184467440737095516);
    assert(upper_margin(0) + 2048 * 3902266830438268928 + 1024 * 184467440737095516 <= 18889465931478580854784);
}

/// The price of a tick has that tick as its upper candidate and the tick
/// before it as its lower candidate.
pub proof fn lemma_candidates_of_tick_price(tick: int)
    requires
        MIN_TICK <= tick <= MAX_TICK,
    ensures
        tick_high(sqrt_price_at_tick(tick)) == tick,
        tick_low(sqrt_price_at_tick(tick)) == tick - 1,
{
    if tick > 0 {
        lemma_candidates_above(tick as nat);
    } else {
        lemma_candidates_below((-tick) as nat);
    }
}

/// The logarithm of the price of a tick gives the tick again, for every
/// tick that converts to a price.
pub proof fn lemma_logarithm_round_trip(tick: int)
    requires
        MIN_TICK <= tick <= MAX_TICK,
    ensures
        tick_by_logarithm(sqrt_price_at_tick(tick)) == Ok::<int, CLMMError>(tick),
{
    lemma_candidates_of_tick_price(tick);
    lemma_sqrt_price_in_bounds(tick);
}

} // verus!
