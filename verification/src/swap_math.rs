//! One step of a swap: from the current price toward a tick boundary.

use crate::error::CLMMError;
use crate::liquidity_math::{amount_a_between, amount_b_between, checked_amount_a, checked_amount_b};
use crate::price_math::Q64;
use vstd::prelude::*;

verus! {

/// The input that moves the price the whole way from `current` to `target`:
/// asset A for a trade from A to B, which lowers the price, and asset B for
/// a trade from B to A, which raises it.
pub open spec fn required_input(current: int, target: int, liquidity: int, a_to_b: bool) -> Option<
    int,
> {
    if a_to_b {
        amount_a_between(liquidity, target, current)
    } else {
        amount_b_between(liquidity, current, target)
    }
}

/// The price that a trade from A to B reaches from `current` when all of
/// `amount` is spent before the boundary: the inverse of the input formula,
/// `liquidity * current * 2^64 / (liquidity * 2^64 + amount * current)`,
/// rounded up, so that the move is never worth more than the amount.
///
/// `None` where a term of the denominator or the denominator exceeds 128
/// bits, or the denominator is zero. The numerator may exceed them: the
/// quotient, which is at most `current`, is taken without it.
pub open spec fn price_after_input_a(current: int, liquidity: int, amount: int) -> Option<int> {
    let numerator = liquidity * current * Q64;
    let denominator = liquidity * Q64 + amount * current;
    if liquidity * Q64 <= u128::MAX && amount * current <= u128::MAX && 0 < denominator
        <= u128::MAX {
        Some((numerator + denominator - 1) / denominator)
    } else {
        None
    }
}

/// The price that a trade from B to A reaches from `current` when all of
/// `amount` is spent before the boundary:
/// `current + amount * 2^64 / liquidity`.
pub open spec fn price_after_input_b(current: int, liquidity: int, amount: int) -> Option<int> {
    if amount * Q64 <= u128::MAX && liquidity > 0 && current + amount * Q64 / liquidity
        <= u128::MAX {
        Some(current + amount * Q64 / liquidity)
    } else {
        None
    }
}

/// The price at which a step ends: the boundary where the budget covers
/// the whole way, else the price that the budget reaches.
pub open spec fn next_price(
    current: int,
    target: int,
    liquidity: int,
    amount_remaining: int,
    a_to_b: bool,
) -> Option<int> {
    match required_input(current, target, liquidity, a_to_b) {
        Some(required) => if amount_remaining >= required {
            Some(target)
        } else if a_to_b {
            price_after_input_a(current, liquidity, amount_remaining)
        } else {
            price_after_input_b(current, liquidity, amount_remaining)
        },
        None => None,
    }
}

/// The output that the pool pays for a move of the price from `current` to
/// `next`: asset B for a trade from A to B, asset A for a trade from B to A.
pub open spec fn output_amount(current: int, next: int, liquidity: int, a_to_b: bool) -> Option<
    int,
> {
    if a_to_b {
        amount_b_between(liquidity, next, current)
    } else {
        amount_a_between(liquidity, current, next)
    }
}

/// One step of a swap as `(next price, input consumed, output produced)`,
/// or `None` where a checked operation fails.
///
/// A full step consumes the required input and ends on the boundary; a
/// partial step consumes the whole budget. The output follows from the
/// price that was reached.
pub open spec fn swap_step(
    current: int,
    target: int,
    liquidity: int,
    amount_remaining: int,
    a_to_b: bool,
) -> Option<(int, int, int)> {
    match (
        required_input(current, target, liquidity, a_to_b),
        next_price(current, target, liquidity, amount_remaining, a_to_b),
    ) {
        (Some(required), Some(next)) => match output_amount(current, next, liquidity, a_to_b) {
            Some(amount_out) => Some(
                (
                    next,
                    if amount_remaining >= required {
                        required
                    } else {
                        amount_remaining
                    },
                    amount_out,
                ),
            ),
            None => None,
        },
        _ => None,
    }
}

/// A step whose budget covers the input that the whole distance requires
/// ends exactly on the boundary and consumes exactly that input.
pub proof fn lemma_full_step_reaches_boundary(
    current: int,
    target: int,
    liquidity: int,
    amount_remaining: int,
    a_to_b: bool,
)
    requires
        swap_step(current, target, liquidity, amount_remaining, a_to_b).is_some(),
        amount_remaining >= required_input(current, target, liquidity, a_to_b).unwrap(),
    ensures
        swap_step(current, target, liquidity, amount_remaining, a_to_b).unwrap().0 == target,
        swap_step(current, target, liquidity, amount_remaining, a_to_b).unwrap().1
            == required_input(current, target, liquidity, a_to_b).unwrap(),
{
}

/// A step ends between the price at which it starts and its boundary, and
/// consumes no more than the budget.
pub proof fn lemma_swap_step_bounds(
    current: int,
    target: int,
    liquidity: int,
    amount_remaining: int,
    a_to_b: bool,
)
    requires
        0 <= current,
        0 <= target,
        0 <= liquidity,
        0 <= amount_remaining,
        swap_step(current, target, liquidity, amount_remaining, a_to_b).is_some(),
    ensures
        ({
            let (next, amount_in, amount_out) = swap_step(
                current,
                target,
                liquidity,
                amount_remaining,
                a_to_b,
            ).unwrap();
            &&& a_to_b ==> target <= next <= current
            &&& !a_to_b ==> current <= next <= target
            &&& 0 <= amount_in <= amount_remaining
            &&& 0 <= amount_out
        }),
{
    let q = Q64 as int;
    let required = required_input(current, target, liquidity, a_to_b).unwrap();
    let next = next_price(current, target, liquidity, amount_remaining, a_to_b).unwrap();
    if a_to_b {
        let numerator = liquidity * (current - target) * q;
        let denominator = current * target;
        assert(0 <= liquidity * (current - target)) by (nonlinear_arith)
            requires
                0 <= liquidity,
                0 <= current - target,
        ;
        assert(0 <= numerator) by (nonlinear_arith)
            requires
                numerator == liquidity * (current - target) * q,
                0 <= liquidity * (current - target),
                q > 0,
        ;
        assert(0 <= required && required * denominator <= numerator) by (nonlinear_arith)
            requires
                required == numerator / denominator,
                denominator > 0,
                numerator >= 0,
        ;
        assert(current >= 1 && target >= 1) by (nonlinear_arith)
            requires
                current * target > 0,
                current >= 0,
                target >= 0,
        ;
        if amount_remaining < required {
            let top = liquidity * current * q;
            let base = liquidity * q;
            let spent = amount_remaining * current;
            let bottom = base + spent;
            assert(next == (top + bottom - 1) / bottom);
            assert(top == current * base) by (nonlinear_arith)
                requires
                    top == liquidity * current * q,
                    base == liquidity * q,
            ;
            assert(0 <= spent) by (nonlinear_arith)
                requires
                    spent == amount_remaining * current,
                    0 <= amount_remaining,
                    0 <= current,
            ;
            // The step does not pass the price at which it starts.
            assert((top + bottom - 1) / bottom <= current) by (nonlinear_arith)
                requires
                    top == current * base,
                    bottom == base + spent,
                    spent >= 0,
                    bottom > 0,
                    current >= 0,
            {
                assert(top <= current * bottom);
                assert(top + bottom - 1 < (current + 1) * bottom);
            }
            // Nor does it reach the boundary.
            assert(target * spent < numerator) by (nonlinear_arith)
                requires
                    spent == amount_remaining * current,
                    amount_remaining + 1 <= required,
                    required * denominator <= numerator,
                    denominator == current * target,
                    denominator > 0,
            {
                assert(target * spent == amount_remaining * denominator);
                assert((amount_remaining + 1) * denominator <= required * denominator);
            }
            assert(target * bottom < top) by (nonlinear_arith)
                requires
                    target * spent < numerator,
                    numerator == liquidity * (current - target) * q,
                    top == liquidity * current * q,
                    base == liquidity * q,
                    bottom == base + spent,
            {
                assert(liquidity * (current - target) * q == top - target * base);
                assert(target * bottom == target * base + target * spent);
            }
            assert((top + bottom - 1) / bottom > target) by (nonlinear_arith)
                requires
                    target * bottom < top,
                    bottom > 0,
            {
                assert(top + bottom - 1 >= (target + 1) * bottom);
            }
        }
        let product = liquidity * (current - next);
        assert(0 <= product) by (nonlinear_arith)
            requires
                product == liquidity * (current - next),
                0 <= liquidity,
                0 <= current - next,
        ;
    } else {
        let product = liquidity * (target - current);
        assert(0 <= product) by (nonlinear_arith)
            requires
                product == liquidity * (target - current),
                0 <= liquidity,
                0 <= target - current,
        ;
        assert(required == product / q);
        if amount_remaining < required {
            let moved = amount_remaining * q / liquidity;
            assert(next == current + moved);
            assert((amount_remaining + 1) * q <= product);
            assert(0 <= moved && moved <= target - current) by (nonlinear_arith)
                requires
                    moved == amount_remaining * q / liquidity,
                    (amount_remaining + 1) * q <= liquidity * (target - current),
                    liquidity > 0,
                    amount_remaining >= 0,
                    q > 0,
                    target - current >= 0,
            {
                assert(moved * liquidity <= amount_remaining * q);
                assert(moved * liquidity < liquidity * (target - current));
            }
        }
        let numerator = liquidity * (next - current) * q;
        let denominator = current * next;
        assert(0 <= liquidity * (next - current)) by (nonlinear_arith)
            requires
                0 <= liquidity,
                0 <= next - current,
        ;
        assert(0 <= numerator / denominator) by (nonlinear_arith)
            requires
                numerator == liquidity * (next - current) * q,
                0 <= liquidity * (next - current),
                q > 0,
                denominator > 0,
        ;
    }
}

/// The move of a step is worth no more than the input that the step
/// consumes: by the input formula, the way from the price at which the
/// step starts to the price at which it ends costs that input or less.
///
/// For a step from A to B the formula gives that cost wherever the
/// product of the two prices fits 128 bits; for a step from B to A it
/// always does.
pub proof fn lemma_step_worth_within_input(
    current: int,
    target: int,
    liquidity: int,
    amount_remaining: int,
    a_to_b: bool,
)
    requires
        0 <= current,
        0 <= target,
        0 <= liquidity,
        0 <= amount_remaining,
        swap_step(current, target, liquidity, amount_remaining, a_to_b).is_some(),
    ensures
        ({
            let (next, amount_in, amount_out) = swap_step(
                current,
                target,
                liquidity,
                amount_remaining,
                a_to_b,
            ).unwrap();
            &&& !a_to_b || current * next <= u128::MAX ==> required_input(
                current,
                next,
                liquidity,
                a_to_b,
            ).is_some()
            &&& required_input(current, next, liquidity, a_to_b) matches Some(worth) ==> 0 <= worth
                <= amount_in
        }),
{
    lemma_swap_step_bounds(current, target, liquidity, amount_remaining, a_to_b);
    let q = Q64 as int;
    let required = required_input(current, target, liquidity, a_to_b).unwrap();
    let next = next_price(current, target, liquidity, amount_remaining, a_to_b).unwrap();
    if amount_remaining < required {
        if a_to_b {
            lemma_partial_step_uses_budget(current, target, liquidity, amount_remaining);
            let gap = liquidity * (current - next) * q;
            let whole = liquidity * (current - target) * q;
            let pair = current * next;
            assert(0 <= gap <= whole) by (nonlinear_arith)
                requires
                    gap == liquidity * (current - next) * q,
                    whole == liquidity * (current - target) * q,
                    target <= next <= current,
                    0 <= liquidity,
                    q > 0,
            ;
            assert(pair > 0) by (nonlinear_arith)
                requires
                    pair == current * next,
                    current * target > 0,
                    0 <= target <= next,
                    0 <= current,
            ;
            assert(0 <= gap / pair <= amount_remaining) by (nonlinear_arith)
                requires
                    0 <= gap <= amount_remaining * pair,
                    pair > 0,
            ;
        } else {
            let moved = amount_remaining * q / liquidity;
            let product = liquidity * moved;
            assert(next == current + moved);
            assert(0 <= product <= amount_remaining * q && 0 <= moved) by (nonlinear_arith)
                requires
                    moved == amount_remaining * q / liquidity,
                    product == liquidity * moved,
                    liquidity > 0,
                    0 <= amount_remaining,
                    q > 0,
            ;
            assert(liquidity * (next - current) == product);
            assert(0 <= product / q <= amount_remaining) by (nonlinear_arith)
                requires
                    0 <= product <= amount_remaining * q,
                    q > 0,
            ;
        }
    }
}

/// A partial step from A to B goes as far as the budget pays: it ends at
/// the lowest price whose distance from the current price costs no more
/// than the budget, so that one unit of price further would cost more,
/// even before the cost is rounded down.
pub proof fn lemma_partial_step_uses_budget(
    current: int,
    target: int,
    liquidity: int,
    amount_remaining: int,
)
    requires
        0 <= current,
        0 <= target,
        0 <= liquidity,
        0 <= amount_remaining,
        swap_step(current, target, liquidity, amount_remaining, true).is_some(),
        amount_remaining < required_input(current, target, liquidity, true).unwrap(),
    ensures
        ({
            let next = swap_step(current, target, liquidity, amount_remaining, true).unwrap().0;
            &&& target < next <= current
            &&& liquidity * (current - next) * Q64 <= amount_remaining * (current * next)
            &&& liquidity * (current - (next - 1)) * Q64 > amount_remaining * (current * (next
                - 1))
        }),
{
    lemma_swap_step_bounds(current, target, liquidity, amount_remaining, true);
    let q = Q64 as int;
    let next = swap_step(current, target, liquidity, amount_remaining, true).unwrap().0;
    let top = liquidity * current * q;
    let bottom = liquidity * q + amount_remaining * current;
    assert(next == (top + bottom - 1) / bottom);
    assert(next * bottom >= top && (next - 1) * bottom < top) by (nonlinear_arith)
        requires
            next == (top + bottom - 1) / bottom,
            bottom > 0,
    ;
    assert(liquidity * (current - next) * q <= amount_remaining * (current * next))
        by (nonlinear_arith)
        requires
            next * bottom >= top,
            bottom == liquidity * q + amount_remaining * current,
            top == liquidity * current * q,
    {
        assert(next * bottom == next * (liquidity * q) + amount_remaining * (current * next));
        assert(liquidity * (current - next) * q == top - next * (liquidity * q));
    }
    let before = next - 1;
    assert(liquidity * (current - before) * q > amount_remaining * (current * before))
        by (nonlinear_arith)
        requires
            before * bottom < top,
            bottom == liquidity * q + amount_remaining * current,
            top == liquidity * current * q,
    {
        assert(before * bottom == before * (liquidity * q) + amount_remaining * (current
            * before));
        assert(liquidity * (current - before) * q == top - before * (liquidity * q));
    }
    // The boundary itself is not reached: its cost is the required input.
    if next == target {
        let numerator = liquidity * (current - target) * q;
        let denominator = current * target;
        let required = numerator / denominator;
        assert(required * denominator <= numerator) by (nonlinear_arith)
            requires
                required == numerator / denominator,
                denominator > 0,
        ;
        assert(false) by (nonlinear_arith)
            requires
                numerator <= amount_remaining * denominator,
                required * denominator <= numerator,
                amount_remaining + 1 <= required,
                denominator > 0,
        {
            assert((amount_remaining + 1) * denominator <= required * denominator);
        }
    }
}

/// In 128 bits a step from A to B pays nothing: the input that the whole
/// distance requires is computed only where
/// `liquidity * (current - target) < 2^64`, and the output is that product,
/// or a smaller one, divided by `2^64`.
pub proof fn lemma_step_from_a_to_b_pays_nothing(
    current: int,
    target: int,
    liquidity: int,
    amount_remaining: int,
)
    requires
        0 <= current,
        0 <= target,
        0 <= liquidity,
        0 <= amount_remaining,
        swap_step(current, target, liquidity, amount_remaining, true).is_some(),
    ensures
        swap_step(current, target, liquidity, amount_remaining, true).unwrap().2 == 0,
{
    lemma_swap_step_bounds(current, target, liquidity, amount_remaining, true);
    let q = Q64 as int;
    let next = swap_step(current, target, liquidity, amount_remaining, true).unwrap().0;
    let whole = liquidity * (current - target);
    let part = liquidity * (current - next);
    assert(0 <= part <= whole) by (nonlinear_arith)
        requires
            part == liquidity * (current - next),
            whole == liquidity * (current - target),
            0 <= liquidity,
            target <= next <= current,
    ;
    assert(whole < q) by (nonlinear_arith)
        requires
            whole * q <= u128::MAX,
            q == 0x1_0000_0000_0000_0000,
    ;
}

/// The quotient and the remainder of `part * times / whole` for a part
/// that does not exceed the whole, taken bit by bit of `times`, so that
/// the product, which may exceed 128 bits, is never formed.
fn scaled_quotient(part: u128, times: u128, whole: u128) -> (out: (u128, u128))
    requires
        0 < whole,
        part <= whole,
    ensures
        part * times == out.0 * whole + out.1,
        out.1 < whole,
        out.0 <= times,
    decreases times,
{
    if times == 0 {
        assert(part * 0 == 0 * whole + 0) by (nonlinear_arith);
        return (0, 0);
    }
    let half: u128 = times / 2;
    let (half_quotient, half_rest) = scaled_quotient(part, half, whole);
    let ghost p = part as int;
    let ghost w = whole as int;
    let ghost h = half as int;
    let ghost q0 = half_quotient as int;
    let ghost r0 = half_rest as int;
    // Twice the half.
    let mut quotient: u128 = half_quotient + half_quotient;
    let mut rest: u128;
    if half_rest >= whole - half_rest {
        proof {
            assert(p * (2 * h) == (2 * q0 + 1) * w + (2 * r0 - w) && 2 * q0 + 1 <= 2 * h)
                by (nonlinear_arith)
                requires
                    p * h == q0 * w + r0,
                    2 * r0 >= w,
                    r0 < w,
                    0 <= p <= w,
                    w > 0,
                    0 <= h,
                    0 <= q0,
            {
                assert(p * (2 * h) == 2 * (p * h));
                assert(p * (2 * h) <= w * (2 * h));
                assert((2 * q0 + 1) * w <= w * (2 * h));
            }
        }
        rest = half_rest - (whole - half_rest);
        quotient = quotient + 1;
    } else {
        proof {
            assert(p * (2 * h) == (2 * q0) * w + 2 * r0) by (nonlinear_arith)
                requires
                    p * h == q0 * w + r0,
            {
                assert(p * (2 * h) == 2 * (p * h));
            }
        }
        rest = half_rest + half_rest;
    }
    let ghost q1 = quotient as int;
    let ghost r1 = rest as int;
    assert(p * (2 * h) == q1 * w + r1 && r1 < w);
    if times % 2 == 1 {
        proof {
            assert(p * times == p * (2 * h) + p && times == 2 * h + 1) by (nonlinear_arith)
                requires
                    times == 2 * h + 1,
            ;
        }
        if part == whole {
            proof {
                assert(p * times == (q1 + 1) * w + r1 && q1 + 1 <= times) by (nonlinear_arith)
                    requires
                        p * times == q1 * w + r1 + p,
                        p == w,
                        w > 0,
                        0 <= r1,
                        0 <= times,
                {
                    assert((q1 + 1) * w <= w * times);
                }
            }
            quotient = quotient + 1;
        } else if rest >= whole - part {
            proof {
                assert(p * times == (q1 + 1) * w + (r1 + p - w) && q1 + 1 <= times)
                    by (nonlinear_arith)
                    requires
                        p * times == q1 * w + r1 + p,
                        r1 + p >= w,
                        0 <= p <= w,
                        w > 0,
                        0 <= times,
                {
                    assert(p * times <= w * times);
                    assert((q1 + 1) * w <= w * times);
                }
            }
            rest = rest - (whole - part);
            quotient = quotient + 1;
        } else {
            rest = rest + part;
        }
    } else {
        assert(times == 2 * h);
    }
    proof {
        let q2 = quotient as int;
        assert(q2 <= times) by (nonlinear_arith)
            requires
                p * times == q2 * w + rest,
                0 <= p <= w,
                w > 0,
                0 <= rest,
                0 <= times,
        {
            assert(p * times <= w * times);
            assert(q2 * w <= w * times);
        }
    }
    (quotient, rest)
}

/// The price that a partial trade from A to B reaches, every step checked.
fn checked_price_after_input_a(current: u128, liquidity: u128, amount: u128) -> (price: Option<
    u128,
>)
    ensures
        match price {
            Some(value) => price_after_input_a(current as int, liquidity as int, amount as int)
                == Some(value as int),
            None => price_after_input_a(current as int, liquidity as int, amount as int).is_none(),
        },
{
    let base: u128 = match liquidity.checked_mul(Q64) {
        Some(b) => b,
        None => { return None; },
    };
    let spent: u128 = match amount.checked_mul(current) {
        Some(s) => s,
        None => { return None; },
    };
    let denominator: u128 = match base.checked_add(spent) {
        Some(d) => d,
        None => { return None; },
    };
    if denominator == 0 {
        return None;
    }
    let (quotient, rest) = scaled_quotient(base, current, denominator);
    proof {
        let numerator = liquidity * current * Q64;
        let d = denominator as int;
        let q = quotient as int;
        let r = rest as int;
        assert(numerator == base * current) by (nonlinear_arith)
            requires
                numerator == liquidity * current * Q64,
                base == liquidity * Q64,
        ;
        assert(base * current <= d * current) by (nonlinear_arith)
            requires
                base <= d,
                0 <= current,
        ;
        let bump = if r == 0 {
            0int
        } else {
            1int
        };
        assert((numerator + d - 1) / d == q + bump && q + bump <= current) by (nonlinear_arith)
            requires
                numerator == q * d + r,
                0 <= r < d,
                q <= current,
                numerator <= d * current,
                bump == if r == 0 {
                    0int
                } else {
                    1int
                },
        {
            assert((q + bump) * d <= numerator + d - 1);
            assert(numerator + d - 1 < (q + bump + 1) * d);
            assert(r != 0 ==> q * d < d * current);
        }
    }
    if rest == 0 {
        Some(quotient)
    } else {
        Some(quotient + 1)
    }
}

/// The price that a partial trade from B to A reaches, every step checked.
fn checked_price_after_input_b(current: u128, liquidity: u128, amount: u128) -> (price: Option<
    u128,
>)
    ensures
        match price {
            Some(value) => price_after_input_b(current as int, liquidity as int, amount as int)
                == Some(value as int),
            None => price_after_input_b(current as int, liquidity as int, amount as int).is_none(),
        },
{
    let scaled: u128 = match amount.checked_mul(Q64) {
        Some(s) => s,
        None => { return None; },
    };
    let moved: u128 = match scaled.checked_div(liquidity) {
        Some(m) => m,
        None => { return None; },
    };
    current.checked_add(moved)
}

/// Computes one step of a swap at the price `sqrt_price_current_x64` toward
/// the boundary `sqrt_price_target_x64`, against `liquidity` and with
/// `amount_remaining` of the input asset left to spend.
///
/// Returns `(next price, input consumed, output produced)`. Where the
/// budget covers the input that the whole distance requires, the step ends
/// exactly on the boundary and consumes that input; otherwise it consumes
/// the whole budget and ends at the price which that reaches, rounded
/// toward the current price, so that the move is never worth more than the
/// budget. The output is computed from the price that was reached, which
/// lies between the current price and the boundary. Any overflow, negative
/// difference or division by zero gives `ArithmeticOverflow`; there is no
/// other failure.
pub fn compute_swap_step(
    sqrt_price_current_x64: u128,
    sqrt_price_target_x64: u128,
    liquidity: u128,
    amount_remaining: u128,
    a_to_b: bool,
) -> (result: Result<(u128, u128, u128), CLMMError>)
    ensures
        match swap_step(
            sqrt_price_current_x64 as int,
            sqrt_price_target_x64 as int,
            liquidity as int,
            amount_remaining as int,
            a_to_b,
        ) {
            Some((next, amount_in, amount_out)) => {
                &&& result == Ok::<(u128, u128, u128), CLMMError>(
                    (next as u128, amount_in as u128, amount_out as u128),
                )
                &&& a_to_b ==> sqrt_price_target_x64 <= next <= sqrt_price_current_x64
                &&& !a_to_b ==> sqrt_price_current_x64 <= next <= sqrt_price_target_x64
                &&& 0 <= amount_in <= amount_remaining
                &&& 0 <= amount_out <= u128::MAX
                &&& required_input(
                    sqrt_price_current_x64 as int,
                    next,
                    liquidity as int,
                    a_to_b,
                ) matches Some(worth) ==> 0 <= worth <= amount_in
                &&& !a_to_b || sqrt_price_current_x64 * next <= u128::MAX ==> required_input(
                    sqrt_price_current_x64 as int,
                    next,
                    liquidity as int,
                    a_to_b,
                ).is_some()
                &&& a_to_b && amount_remaining < required_input(
                    sqrt_price_current_x64 as int,
                    sqrt_price_target_x64 as int,
                    liquidity as int,
                    true,
                ).unwrap() ==> liquidity * (sqrt_price_current_x64 - (next - 1)) * Q64
                    > amount_remaining * (sqrt_price_current_x64 * (next - 1))
            },
            None => result == Err::<(u128, u128, u128), CLMMError>(
                CLMMError::ArithmeticOverflow,
            ),
        },
{
    proof {
        if swap_step(
            sqrt_price_current_x64 as int,
            sqrt_price_target_x64 as int,
            liquidity as int,
            amount_remaining as int,
            a_to_b,
        ).is_some() {
            lemma_swap_step_bounds(
                sqrt_price_current_x64 as int,
                sqrt_price_target_x64 as int,
                liquidity as int,
                amount_remaining as int,
                a_to_b,
            );
            lemma_step_worth_within_input(
                sqrt_price_current_x64 as int,
                sqrt_price_target_x64 as int,
                liquidity as int,
                amount_remaining as int,
                a_to_b,
            );
            if a_to_b && amount_remaining < required_input(
                sqrt_price_current_x64 as int,
                sqrt_price_target_x64 as int,
                liquidity as int,
                true,
            ).unwrap() {
                lemma_partial_step_uses_budget(
                    sqrt_price_current_x64 as int,
                    sqrt_price_target_x64 as int,
                    liquidity as int,
                    amount_remaining as int,
                );
            }
        }
    }
    let required: Option<u128> = if a_to_b {
        checked_amount_a(liquidity, sqrt_price_target_x64, sqrt_price_current_x64)
    } else {
        checked_amount_b(liquidity, sqrt_price_current_x64, sqrt_price_target_x64)
    };
    let required_in: u128 = match required {
        Some(r) => r,
        None => { return Err(CLMMError::ArithmeticOverflow); },
    };
    let next_price: u128;
    let amount_in: u128;
    if amount_remaining >= required_in {
        next_price = sqrt_price_target_x64;
        amount_in = required_in;
    } else {
        let reached: Option<u128> = if a_to_b {
            checked_price_after_input_a(sqrt_price_current_x64, liquidity, amount_remaining)
        } else {
            checked_price_after_input_b(sqrt_price_current_x64, liquidity, amount_remaining)
        };
        next_price =
        match reached {
            Some(p) => p,
            None => { return Err(CLMMError::ArithmeticOverflow); },
        };
        amount_in = amount_remaining;
    }
    let produced: Option<u128> = if a_to_b {
        checked_amount_b(liquidity, next_price, sqrt_price_current_x64)
    } else {
        checked_amount_a(liquidity, sqrt_price_current_x64, next_price)
    };
    match produced {
        Some(amount_out) => Ok((next_price, amount_in, amount_out)),
        None => Err(CLMMError::ArithmeticOverflow),
    }
}

} // verus!
