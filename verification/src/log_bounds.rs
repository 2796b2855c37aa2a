//! What the binary digits of the logarithm say of a number: bounds on its
//! repeated squares by powers of two.

use crate::price_math::{floor_log2, lemma_floor_log2_bounds, log2_digits, mantissa};
use vstd::arithmetic::power2::{lemma2_to64, lemma_pow2_adds, lemma_pow2_pos, lemma_pow2_unfold, pow2};
use vstd::prelude::*;

verus! {

/// `x` squared `k` times: `x^(2^k)`.
pub open spec fn sq_pow(x: nat, k: nat) -> nat
    decreases k,
{
    if k == 0 {
        x
    } else {
        sq_pow(x * x, (k - 1) as nat)
    }
}

/// Repeated squaring keeps the order.
pub proof fn lemma_sq_pow_ordered(low: nat, high: nat, k: nat)
    requires
        low <= high,
    ensures
        sq_pow(low, k) <= sq_pow(high, k),
    decreases k,
{
    if k > 0 {
        assert(low * low <= high * high) by (nonlinear_arith)
            requires
                low <= high,
        ;
        lemma_sq_pow_ordered(low * low, high * high, (k - 1) as nat);
    }
}

/// Repeated squaring keeps the strict order.
pub proof fn lemma_sq_pow_strictly_ordered(low: nat, high: nat, k: nat)
    requires
        low < high,
    ensures
        sq_pow(low, k) < sq_pow(high, k),
    decreases k,
{
    if k > 0 {
        assert(low * low < high * high) by (nonlinear_arith)
            requires
                low < high,
        ;
        lemma_sq_pow_strictly_ordered(low * low, high * high, (k - 1) as nat);
    }
}

/// The repeated square of a product is the product of the repeated
/// squares.
pub proof fn lemma_sq_pow_of_product(x: nat, y: nat, k: nat)
    ensures
        sq_pow(x * y, k) == sq_pow(x, k) * sq_pow(y, k),
    decreases k,
{
    if k > 0 {
        assert((x * y) * (x * y) == (x * x) * (y * y)) by (nonlinear_arith);
        lemma_sq_pow_of_product(x * x, y * y, (k - 1) as nat);
    }
}

/// Squaring `j` times and then `k` times squares `j + k` times.
pub proof fn lemma_sq_pow_twice(x: nat, j: nat, k: nat)
    ensures
        sq_pow(sq_pow(x, j), k) == sq_pow(x, j + k),
    decreases j,
{
    if j > 0 {
        lemma_sq_pow_twice(x * x, (j - 1) as nat, k);
    }
}

/// The repeated square of a power of two doubles the exponent each time.
pub proof fn lemma_sq_pow_of_pow2(e: nat, k: nat)
    ensures
        sq_pow(pow2(e), k) == pow2(e * pow2(k)),
    decreases k,
{
    lemma2_to64();
    if k == 0 {
        assert(e * 1 == e);
    } else {
        lemma_pow2_adds(e, e);
        lemma_sq_pow_of_pow2(2 * e, (k - 1) as nat);
        lemma_pow2_unfold(k);
        assert((2 * e) * pow2((k - 1) as nat) == e * (2 * pow2((k - 1) as nat)))
            by (nonlinear_arith);
    }
}

/// Powers of two rise with the exponent.
pub proof fn lemma_pow2_ordered(low: nat, high: nat)
    requires
        low <= high,
    ensures
        pow2(low) <= pow2(high),
{
    lemma_pow2_adds(low, (high - low) as nat);
    lemma_pow2_pos((high - low) as nat);
    lemma_pow2_pos(low);
    assert(pow2(low) <= pow2(low) * pow2((high - low) as nat)) by (nonlinear_arith)
        requires
            pow2(low) > 0,
            pow2((high - low) as nat) >= 1,
    ;
}

/// A power of two below another has the smaller exponent.
pub proof fn lemma_pow2_exponent_below(low: nat, high: nat)
    requires
        pow2(low) < pow2(high),
    ensures
        low < high,
{
    if low >= high {
        lemma_pow2_ordered(high, low);
    }
}

/// Whether the square of the mantissa `r` reaches two: the next binary
/// digit of the logarithm.
pub open spec fn next_digit(r: nat) -> nat {
    if r * r >= 0x8000_0000_0000_0000_0000_0000_0000_0000 {
        1
    } else {
        0
    }
}

/// The mantissa of the square of the mantissa `r`.
pub open spec fn next_mantissa(r: nat) -> nat {
    if r * r >= 0x8000_0000_0000_0000_0000_0000_0000_0000 {
        r * r / 0x1_0000_0000_0000_0000
    } else {
        r * r / 0x8000_0000_0000_0000
    }
}

/// One squaring of a mantissa: the next mantissa is one again, and scaled
/// by its power of two it lies just below the square.
pub proof fn lemma_next_mantissa(r: nat)
    requires
        0x8000_0000_0000_0000 <= r < 0x1_0000_0000_0000_0000,
    ensures
        0x8000_0000_0000_0000 <= next_mantissa(r) < 0x1_0000_0000_0000_0000,
        next_mantissa(r) * pow2(63 + next_digit(r)) <= r * r,
        r * r < (next_mantissa(r) + 1) * pow2(63 + next_digit(r)),
        next_digit(r) == 1 ==> pow2(63 + next_digit(r)) == 0x1_0000_0000_0000_0000,
        next_digit(r) == 0 ==> pow2(63 + next_digit(r)) == 0x8000_0000_0000_0000 && r
            < 0xb800_0000_0000_0000,
{
    lemma2_to64();
    vstd::arithmetic::power2::lemma2_to64_rest();
    let square = r * r;
    assert(0x4000_0000_0000_0000_0000_0000_0000_0000 <= square
        < 0x1_0000_0000_0000_0000_0000_0000_0000_0000) by (nonlinear_arith)
        requires
            square == r * r,
            0x8000_0000_0000_0000 <= r < 0x1_0000_0000_0000_0000,
    ;
    if square >= 0x8000_0000_0000_0000_0000_0000_0000_0000 {
        let next = square / 0x1_0000_0000_0000_0000;
        assert(pow2(63 + next_digit(r)) == 0x1_0000_0000_0000_0000);
        assert(next * 0x1_0000_0000_0000_0000 <= square < (next + 1) * 0x1_0000_0000_0000_0000);
    } else {
        let next = square / 0x8000_0000_0000_0000;
        assert(pow2(63 + next_digit(r)) == 0x8000_0000_0000_0000);
        assert(next * 0x8000_0000_0000_0000 <= square < (next + 1) * 0x8000_0000_0000_0000);
        assert(r < 0xb800_0000_0000_0000) by (nonlinear_arith)
            requires
                r * r < 0x8000_0000_0000_0000_0000_0000_0000_0000,
                r >= 0,
        ;
    }
}

/// The digits that follow `acc` do not depend on `acc`.
pub proof fn lemma_digits_split(r: nat, acc: nat, k: nat)
    ensures
        log2_digits(r, acc, k) == acc * pow2(k) + log2_digits(r, 0, k),
        log2_digits(r, 0, k) < pow2(k),
    decreases k,
{
    lemma2_to64();
    if k == 0 {
        assert(acc * 1 == acc);
    } else {
        let h = next_digit(r);
        let next = next_mantissa(r);
        let rest = (k - 1) as nat;
        assert(log2_digits(r, acc, k) == log2_digits(next, 2 * acc + h, rest));
        assert(log2_digits(r, 0, k) == log2_digits(next, h, rest));
        lemma_digits_split(next, 2 * acc + h, rest);
        lemma_digits_split(next, h, rest);
        lemma_pow2_unfold(k);
        assert((2 * acc + h) * pow2(rest) == acc * (2 * pow2(rest)) + h * pow2(rest))
            by (nonlinear_arith);
        assert(h * pow2(rest) <= pow2(rest)) by (nonlinear_arith)
            requires
                h <= 1,
        ;
    }
}

/// The first digit splits off the digits of a mantissa.
pub proof fn lemma_digits_unfold(r: nat, k: nat)
    requires
        k > 0,
    ensures
        log2_digits(r, 0, k) == next_digit(r) * pow2((k - 1) as nat) + log2_digits(
            next_mantissa(r),
            0,
            (k - 1) as nat,
        ),
{
    let h = next_digit(r);
    assert(log2_digits(r, 0, k) == log2_digits(next_mantissa(r), h, (k - 1) as nat));
    lemma_digits_split(next_mantissa(r), h, (k - 1) as nat);
}

/// The `k` digits of a mantissa bound its `k`-fold square from below:
/// `2^(63 * 2^k + digits) <= r^(2^k)`.
pub proof fn lemma_digits_lower(r: nat, k: nat)
    requires
        0x8000_0000_0000_0000 <= r < 0x1_0000_0000_0000_0000,
    ensures
        pow2(63 * pow2(k) + log2_digits(r, 0, k)) <= sq_pow(r, k),
    decreases k,
{
    lemma2_to64();
    vstd::arithmetic::power2::lemma2_to64_rest();
    if k == 0 {
        assert(63 * 1 + 0 == 63);
    } else {
        let h = next_digit(r);
        let next = next_mantissa(r);
        let rest = (k - 1) as nat;
        let half = pow2(rest);
        lemma_next_mantissa(r);
        lemma_digits_unfold(r, k);
        lemma_digits_lower(next, rest);
        // r^(2^k) = (r^2)^(2^(k-1)) >= (next * 2^(63+h))^(2^(k-1))
        lemma_sq_pow_ordered(next * pow2(63 + h), r * r, rest);
        lemma_sq_pow_of_product(next, pow2(63 + h), rest);
        lemma_sq_pow_of_pow2(63 + h, rest);
        lemma_pow2_unfold(k);
        let low = 63 * half + log2_digits(next, 0, rest);
        let scale = (63 + h) * half;
        lemma_pow2_adds(low, scale);
        assert(low + scale == 63 * pow2(k) + log2_digits(r, 0, k)) by (nonlinear_arith)
            requires
                low == 63 * half + log2_digits(next, 0, rest),
                scale == (63 + h) * half,
                pow2(k) == 2 * half,
                log2_digits(r, 0, k) == h * half + log2_digits(next, 0, rest),
        ;
        lemma_pow2_pos(scale);
        assert(pow2(low) * pow2(scale) <= sq_pow(next, rest) * pow2(scale)) by (nonlinear_arith)
            requires
                pow2(low) <= sq_pow(next, rest),
                pow2(scale) > 0,
        ;
    }
}

/// How far above its mantissa a number may lie for the upper bound of
/// `k` further digits to hold: every squaring multiplies the distance by
/// up to three and adds one.
pub open spec fn distance_cap(k: nat) -> nat
    decreases k,
{
    if k == 0 {
        0x4000_0000_0000_0000
    } else {
        distance_cap((k - 1) as nat) / 4
    }
}

/// The `k` digits of a mantissa bound the `k`-fold square of every number
/// near it from above: if `r * unit <= x < (r + distance) * unit`, then
/// `x^(2^k) < unit^(2^k) * 2^(63 * 2^k + digits + 2)`.
pub proof fn lemma_digits_upper(r: nat, k: nat, x: nat, unit: nat, distance: nat)
    requires
        0x8000_0000_0000_0000 <= r < 0x1_0000_0000_0000_0000,
        unit > 0,
        1 <= distance <= distance_cap(k),
        r * unit <= x < (r + distance) * unit,
    ensures
        sq_pow(x, k) < sq_pow(unit, k) * pow2(63 * pow2(k) + log2_digits(r, 0, k) + 2),
    decreases k,
{
    lemma2_to64();
    vstd::arithmetic::power2::lemma2_to64_rest();
    if k == 0 {
        assert(63 * 1 + 0 + 2 == 65);
        lemma_pow2_unfold(65);
        assert(x < unit * 0x2_0000_0000_0000_0000) by (nonlinear_arith)
            requires
                x < (r + distance) * unit,
                r < 0x1_0000_0000_0000_0000,
                distance <= 0x4000_0000_0000_0000,
                unit > 0,
        ;
    } else {
        let h = next_digit(r);
        let next = next_mantissa(r);
        let rest = (k - 1) as nat;
        let half = pow2(rest);
        let step = pow2(63 + h);
        let grown = 3 * distance + 1;
        let wide = unit * unit * step;
        lemma_next_mantissa(r);
        lemma_digits_unfold(r, k);
        lemma_distance_cap_small(rest);
        assert(grown <= distance_cap(rest));
        assert(distance <= 0x1000_0000_0000_0000);
        // The square of x lies near the next mantissa.
        assert(2 * r * distance + distance * distance <= 3 * distance * step) by {
            if h == 1 {
                assert(2 * r * distance + distance * distance <= 3 * distance
                    * 0x1_0000_0000_0000_0000) by (nonlinear_arith)
                    requires
                        r < 0x1_0000_0000_0000_0000,
                        1 <= distance <= 0x1000_0000_0000_0000,
                ;
            } else {
                assert(2 * r * distance + distance * distance <= 3 * distance
                    * 0x8000_0000_0000_0000) by (nonlinear_arith)
                    requires
                        r < 0xb800_0000_0000_0000,
                        1 <= distance <= 0x1000_0000_0000_0000,
                ;
            }
        }
        assert((r + distance) * (r + distance) < (next + grown) * step) by (nonlinear_arith)
            requires
                r * r < (next + 1) * step,
                2 * r * distance + distance * distance <= 3 * distance * step,
                grown == 3 * distance + 1,
        {
            assert((r + distance) * (r + distance) == r * r + 2 * r * distance + distance
                * distance);
            assert((next + grown) * step == (next + 1) * step + 3 * distance * step);
        }
        assert(x * x < (next + grown) * wide) by (nonlinear_arith)
            requires
                x < (r + distance) * unit,
                unit > 0,
                (r + distance) * (r + distance) < (next + grown) * step,
                wide == unit * unit * step,
        {
            assert(x * x < ((r + distance) * unit) * ((r + distance) * unit));
            assert(((r + distance) * unit) * ((r + distance) * unit) == ((r + distance) * (r
                + distance)) * (unit * unit));
            assert(((r + distance) * (r + distance)) * (unit * unit) < ((next + grown) * step)
                * (unit * unit));
        }
        assert(next * wide <= x * x) by (nonlinear_arith)
            requires
                r * unit <= x,
                next * step <= r * r,
                wide == unit * unit * step,
        {
            assert((r * unit) * (r * unit) <= x * x);
            assert((r * unit) * (r * unit) == (r * r) * (unit * unit));
            assert((next * step) * (unit * unit) <= (r * r) * (unit * unit));
        }
        assert(wide > 0) by (nonlinear_arith)
            requires
                wide == unit * unit * step,
                unit > 0,
                step > 0,
        ;
        lemma_digits_upper(next, rest, x * x, wide, grown);
        // unit'^(2^(k-1)) = unit^(2^k) * 2^((63+h) * 2^(k-1))
        lemma_sq_pow_of_product(unit * unit, step, rest);
        lemma_sq_pow_of_pow2(63 + h, rest);
        lemma_pow2_unfold(k);
        let low = 63 * half + log2_digits(next, 0, rest) + 2;
        let scale = (63 + h) * half;
        lemma_pow2_adds(scale, low);
        assert(scale + low == 63 * pow2(k) + log2_digits(r, 0, k) + 2) by (nonlinear_arith)
            requires
                low == 63 * half + log2_digits(next, 0, rest) + 2,
                scale == (63 + h) * half,
                pow2(k) == 2 * half,
                log2_digits(r, 0, k) == h * half + log2_digits(next, 0, rest),
        ;
        assert(sq_pow(unit * unit, rest) == sq_pow(unit, k));
        assert((sq_pow(unit, k) * pow2(scale)) * pow2(low) == sq_pow(unit, k) * (pow2(scale)
            * pow2(low))) by (nonlinear_arith);
    }
}

/// No cap exceeds `2^62`, and a quarter of a cap does not exceed `2^60`.
proof fn lemma_distance_cap_small(k: nat)
    ensures
        distance_cap(k) <= 0x4000_0000_0000_0000,
        distance_cap(k) / 4 <= 0x1000_0000_0000_0000,
    decreases k,
{
    if k > 0 {
        lemma_distance_cap_small((k - 1) as nat);
    }
}

/// Squaring one gives one.
pub proof fn lemma_sq_pow_of_one(k: nat)
    ensures
        sq_pow(1, k) == 1,
    decreases k,
{
    if k > 0 {
        lemma_sq_pow_of_one((k - 1) as nat);
    }
}

/// One step of [`distance_cap`] on given numbers.
proof fn lemma_distance_cap_step(k: nat, cap: nat, next: nat)
    requires
        distance_cap(k) == cap,
        next == cap / 4,
    ensures
        distance_cap(k + 1) == next,
{
}

/// Up to twenty-six digits, a number as far as its own truncation from
/// its mantissa stays under the cap.
pub proof fn lemma_distance_cap_admits_one(k: nat)
    requires
        k <= 26,
    ensures
        distance_cap(k) >= 1,
{
    lemma_distance_cap_step(0, 4611686018427387904, 1152921504606846976);
    lemma_distance_cap_step(1, 1152921504606846976, 288230376151711744);
    lemma_distance_cap_step(2, 288230376151711744, 72057594037927936);
    lemma_distance_cap_step(3, 72057594037927936, 18014398509481984);
    lemma_distance_cap_step(4, 18014398509481984, 4503599627370496);
    lemma_distance_cap_step(5, 4503599627370496, 1125899906842624);
    lemma_distance_cap_step(6, 1125899906842624, 281474976710656);
    lemma_distance_cap_step(7, 281474976710656, 70368744177664);
    lemma_distance_cap_step(8, 70368744177664, 17592186044416);
    lemma_distance_cap_step(9, 17592186044416, 4398046511104);
    lemma_distance_cap_step(10, 4398046511104, 1099511627776);
    lemma_distance_cap_step(11, 1099511627776, 274877906944);
    lemma_distance_cap_step(12, 274877906944, 68719476736);
    lemma_distance_cap_step(13, 68719476736, 17179869184);
    lemma_distance_cap_step(14, 17179869184, 4294967296);
    lemma_distance_cap_step(15, 4294967296, 1073741824);
    lemma_distance_cap_step(16, 1073741824, 268435456);
    lemma_distance_cap_step(17, 268435456, 67108864);
    lemma_distance_cap_step(18, 67108864, 16777216);
    lemma_distance_cap_step(19, 16777216, 4194304);
    lemma_distance_cap_step(20, 4194304, 1048576);
    lemma_distance_cap_step(21, 1048576, 262144);
    lemma_distance_cap_step(22, 262144, 65536);
    lemma_distance_cap_step(23, 65536, 16384);
    lemma_distance_cap_step(24, 16384, 4096);
    lemma_distance_cap_step(25, 4096, 1024);
    lemma_distance_cap_ordered(k, 26);
}

/// The more digits, the lower the cap.
proof fn lemma_distance_cap_ordered(low: nat, high: nat)
    requires
        low <= high,
    ensures
        distance_cap(low) >= distance_cap(high),
    decreases high - low,
{
    if low < high {
        lemma_distance_cap_ordered(low, (high - 1) as nat);
    }
}

/// A number between two neighbouring powers of two has its highest bit at
/// the lower one.
pub proof fn lemma_floor_log2_is(x: nat, msb: nat)
    requires
        pow2(msb) <= x < pow2(msb + 1),
    ensures
        floor_log2(x) == msb,
{
    lemma_pow2_pos(msb);
    lemma_floor_log2_bounds(x);
    let found = floor_log2(x);
    if found < msb {
        lemma_pow2_ordered(found + 1, msb);
    }
    if found > msb {
        lemma_pow2_ordered(msb + 1, found);
    }
}

/// The highest bit of a positive number and the `k` digits of its
/// mantissa bound its `k`-fold square between two powers of two:
/// `2^(msb * 2^k + digits) <= x^(2^k) < 2^(msb * 2^k + digits + 2)`.
pub proof fn lemma_number_digits(x: nat, k: nat)
    requires
        x >= 1,
        k <= 26,
    ensures
        pow2(floor_log2(x) * pow2(k) + log2_digits(mantissa(x), 0, k)) <= sq_pow(x, k),
        sq_pow(x, k) < pow2(floor_log2(x) * pow2(k) + log2_digits(mantissa(x), 0, k) + 2),
{
    let msb = floor_log2(x);
    let r = mantissa(x);
    let digits = log2_digits(r, 0, k);
    let span = pow2(k);
    lemma2_to64();
    vstd::arithmetic::power2::lemma2_to64_rest();
    crate::price_math::lemma_mantissa_bounds(x);
    lemma_floor_log2_bounds(x);
    lemma_distance_cap_admits_one(k);
    lemma_digits_lower(r, k);
    if msb >= 64 {
        let shift = (msb - 63) as nat;
        let unit = pow2(shift);
        lemma_pow2_pos(shift);
        assert(r * unit <= x < (r + 1) * unit) by (nonlinear_arith)
            requires
                r == x / unit,
                unit > 0,
        ;
        lemma_sq_pow_of_pow2(shift, k);
        // From below.
        lemma_sq_pow_ordered(r * unit, x, k);
        lemma_sq_pow_of_product(r, unit, k);
        lemma_pow2_adds(63 * span + digits, shift * span);
        assert(63 * span + digits + shift * span == msb * span + digits) by (nonlinear_arith)
            requires
                shift == msb - 63,
        ;
        lemma_pow2_pos(shift * span);
        assert(pow2(63 * span + digits) * pow2(shift * span) <= sq_pow(r, k) * pow2(shift * span))
            by (nonlinear_arith)
            requires
                pow2(63 * span + digits) <= sq_pow(r, k),
                pow2(shift * span) > 0,
        ;
        // From above.
        lemma_digits_upper(r, k, x, unit, 1);
        lemma_pow2_adds(shift * span, 63 * span + digits + 2);
        assert(shift * span + (63 * span + digits + 2) == msb * span + digits + 2)
            by (nonlinear_arith)
            requires
                shift == msb - 63,
        ;
    } else {
        let shift = (63 - msb) as nat;
        let scale = pow2(shift);
        lemma_pow2_pos(shift);
        lemma_pow2_pos(shift * span);
        lemma_sq_pow_of_pow2(shift, k);
        lemma_sq_pow_of_product(x, scale, k);
        let lifted = pow2(shift * span);
        assert(sq_pow(r, k) == sq_pow(x, k) * lifted);
        // From below.
        lemma_pow2_adds(msb * span + digits, shift * span);
        assert(msb * span + digits + shift * span == 63 * span + digits) by (nonlinear_arith)
            requires
                shift == 63 - msb,
        ;
        assert(pow2(msb * span + digits) <= sq_pow(x, k)) by (nonlinear_arith)
            requires
                pow2(msb * span + digits) * lifted <= sq_pow(x, k) * lifted,
                lifted > 0,
        ;
        // From above.
        assert(r * 1 <= r < (r + 1) * 1);
        lemma_digits_upper(r, k, r, 1, 1);
        lemma_sq_pow_of_one(k);
        lemma_pow2_adds(msb * span + digits + 2, shift * span);
        assert(msb * span + digits + 2 + shift * span == 63 * span + digits + 2)
            by (nonlinear_arith)
            requires
                shift == 63 - msb,
        ;
        assert(sq_pow(x, k) < pow2(msb * span + digits + 2)) by (nonlinear_arith)
            requires
                sq_pow(x, k) * lifted < pow2(msb * span + digits + 2) * lifted,
                lifted > 0,
        ;
    }
}

/// A step shrinks the ratio of two numbers by no more than this: if
/// `low / high` is at least `(whole - part) / whole`, then the ratio of
/// the squares is at least `(whole - 2 * part) / whole`.
proof fn lemma_square_keeps_ratio(low: nat, high: nat, whole: nat, part: nat)
    requires
        part <= whole,
        whole > 0,
        low * whole >= high * (whole - part),
    ensures
        (low * low) * whole >= (high * high) * (whole - 2 * part),
{
    let l = low as int;
    let h = high as int;
    let w = whole as int;
    let p = part as int;
    if 2 * p <= w {
        assert((l * w) * (l * w) >= (h * (w - p)) * (h * (w - p))) by (nonlinear_arith)
            requires
                l * w >= h * (w - p),
                h * (w - p) >= 0,
        ;
        assert((w - p) * (w - p) >= w * (w - 2 * p)) by (nonlinear_arith);
        assert((h * (w - p)) * (h * (w - p)) >= (h * h) * (w * (w - 2 * p))) by (nonlinear_arith)
            requires
                (w - p) * (w - p) >= w * (w - 2 * p),
                h >= 0,
        {
            assert((h * (w - p)) * (h * (w - p)) == (h * h) * ((w - p) * (w - p)));
        }
        assert((l * l) * w >= (h * h) * (w - 2 * p)) by (nonlinear_arith)
            requires
                (l * w) * (l * w) >= (h * h) * (w * (w - 2 * p)),
                w > 0,
        {
            assert((l * w) * (l * w) == ((l * l) * w) * w);
            assert((h * h) * (w * (w - 2 * p)) == ((h * h) * (w - 2 * p)) * w);
        }
    } else {
        assert((h * h) * (w - 2 * p) <= 0) by (nonlinear_arith)
            requires
                w - 2 * p < 0,
        ;
        assert((l * l) * w >= 0) by (nonlinear_arith)
            requires
                l >= 0,
                w >= 0,
        ;
    }
}

/// Repeated squaring shrinks the ratio of two numbers by no more than the
/// doubling of its distance from one.
proof fn lemma_sq_pow_keeps_ratio(low: nat, high: nat, whole: nat, part: nat, k: nat)
    requires
        part * pow2(k) <= whole,
        whole > 0,
        low * whole >= high * (whole - part),
    ensures
        sq_pow(low, k) * whole >= sq_pow(high, k) * (whole - part * pow2(k)),
    decreases k,
{
    lemma2_to64();
    if k == 0 {
        assert(part * 1 == part);
    } else {
        lemma_pow2_unfold(k);
        lemma_pow2_pos((k - 1) as nat);
        assert(part * pow2(k) == (2 * part) * pow2((k - 1) as nat)) by (nonlinear_arith)
            requires
                pow2(k) == 2 * pow2((k - 1) as nat),
        ;
        assert(part <= whole) by (nonlinear_arith)
            requires
                (2 * part) * pow2((k - 1) as nat) <= whole,
                pow2((k - 1) as nat) >= 1,
        ;
        lemma_square_keeps_ratio(low, high, whole, part);
        assert(2 * part <= whole) by (nonlinear_arith)
            requires
                (2 * part) * pow2((k - 1) as nat) <= whole,
                pow2((k - 1) as nat) >= 1,
        ;
        lemma_sq_pow_keeps_ratio(low * low, high * high, whole, 2 * part, (k - 1) as nat);
    }
}

/// A number of at least `2^(k + 1)` has a `k`-fold square of at most twice
/// that of its predecessor.
pub proof fn lemma_sq_pow_of_successor(x: nat, k: nat)
    requires
        x + 1 >= 2 * pow2(k),
    ensures
        sq_pow(x + 1, k) <= 2 * sq_pow(x, k),
{
    let whole = x + 1;
    let span = pow2(k);
    lemma_pow2_pos(k);
    assert(1 * span == span);
    assert(x * whole >= whole * (whole - 1)) by (nonlinear_arith)
        requires
            whole == x + 1,
    ;
    lemma_sq_pow_keeps_ratio(x, whole, whole, 1, k);
    let low = sq_pow(x, k) as int;
    let high = sq_pow(whole, k) as int;
    assert(high <= 2 * low) by (nonlinear_arith)
        requires
            low * whole >= high * (whole - span),
            whole >= 2 * span,
            span >= 1,
            high >= 0,
            low >= 0,
    {
        assert(2 * (whole - span) >= whole);
        assert(high * (2 * (whole - span)) >= high * whole);
        assert((2 * low) * whole >= high * whole);
    }
}

} // verus!
