use clmm::error::CLMMError;
use clmm::instructions::swap::Swap;
use clmm::price_math::{tick_to_sqrt_price_x64, MAX_SQRT_PRICE_X64};
use clmm::state::{tick, Pool};
use clmm::swap;

const MINT_A: [u8; 32] = [1; 32];
const MINT_B: [u8; 32] = [2; 32];
const MIDDLE: u128 = 837899702512935; // tick -200000
const UPPER: u128 = 842099481739003; // tick -199900
const NEXT: u128 = 846320311390909; // tick -199800

fn boundary(index: i32, liquidity: i128) -> tick {
    tick {
        sqrt_price_x64: tick_to_sqrt_price_x64(index).unwrap_or(0),
        liquidity,
        index,
    }
}

fn trade(ticks: Vec<tick>) -> Swap {
    Swap {
        minta: MINT_A,
        mintb: MINT_B,
        config: Pool {
            minta: MINT_A,
            mintb: MINT_B,
            sqrt_price: MIDDLE,
            active_liquidity: 1_000_000,
            total_lp_issued: 42,
            current_tick: -200000,
        },
        ticks,
    }
}

#[test]
fn swap_crosses_one_boundary() {
    let mut ctx = trade(vec![boundary(-199900, -400_000)]);
    assert_eq!(ctx.swap(5, None, None, false), Ok((0, 109797069)));
    assert_eq!(ctx.config.sqrt_price, UPPER);
    assert_eq!(ctx.config.active_liquidity, 600_000);
    assert_eq!(ctx.config.current_tick, -199900);
    assert_eq!(ctx.config.total_lp_issued, 42);
    assert_eq!(ctx.config.minta, MINT_A);
    assert_eq!(ctx.ticks, vec![boundary(-199900, -400_000)]);
}

#[test]
fn swap_crosses_two_boundaries() {
    let mut ctx = trade(vec![boundary(-199900, -400_000), boundary(-199800, 100)]);
    assert_eq!(swap(&mut ctx, 5, None, None, false), Ok((0, 175346757)));
    assert_eq!(ctx.config.sqrt_price, NEXT);
    assert_eq!(ctx.config.active_liquidity, 600_100);
    assert_eq!(ctx.config.current_tick, -199800);
}

#[test]
fn swap_uses_the_liquidity_behind_each_boundary() {
    let mut ctx = trade(vec![boundary(-199900, -1_000_000), boundary(-199800, 5)]);
    // Behind the first boundary nothing is active, so the second step
    // pays nothing.
    assert_eq!(ctx.swap(5, None, None, false), Ok((0, 109797069)));
    assert_eq!(ctx.config.sqrt_price, NEXT);
    assert_eq!(ctx.config.active_liquidity, 5);
    assert_eq!(ctx.config.current_tick, -199800);
}

#[test]
fn swap_stops_when_the_budget_is_spent() {
    let mut ctx = trade(vec![boundary(-199900, 0), boundary(-199800, 0)]);
    ctx.config.active_liquidity = 18446744073709551615;
    assert_eq!(ctx.swap(1, None, None, false), Ok((1, 484680305)));
    assert_eq!(ctx.config.sqrt_price, 837899702512936);
    assert_eq!(ctx.config.active_liquidity, 18446744073709551615);
    assert_eq!(ctx.config.current_tick, -200000);
}

#[test]
fn swap_below_the_minimum_fails_and_changes_nothing() {
    let mut ctx = trade(vec![boundary(-199900, -400_000)]);
    let before = ctx.clone();
    assert_eq!(
        ctx.swap(5, None, Some(109797070), false),
        Err(CLMMError::SlippageExceeded)
    );
    assert_eq!(ctx, before);
    assert_eq!(
        swap(&mut ctx, 5, None, Some(u128::MAX), false),
        Err(CLMMError::SlippageExceeded)
    );
    assert_eq!(ctx, before);
    assert_eq!(ctx.swap(5, None, Some(109797069), false), Ok((0, 109797069)));
}

#[test]
fn swap_stops_before_a_boundary_beyond_the_limit() {
    let mut ctx = trade(vec![boundary(-199900, -400_000), boundary(-199800, 100)]);
    let before = ctx.clone();
    assert_eq!(
        ctx.swap(5, Some(UPPER - 1), None, false),
        Err(CLMMError::ZeroSwapOutput)
    );
    assert_eq!(ctx, before);
    assert_eq!(ctx.swap(5, Some(UPPER), None, false), Ok((0, 109797069)));
    assert_eq!(ctx.config.sqrt_price, UPPER);
    assert_eq!(ctx.config.active_liquidity, 600_000);
    assert_eq!(ctx.config.current_tick, -199900);
}

#[test]
fn swap_without_limit_goes_to_the_extreme_price() {
    let mut with_limit = trade(vec![boundary(-199900, 0), boundary(221810, 0)]);
    let mut without = with_limit.clone();
    assert_eq!(
        with_limit.swap(5, Some(MAX_SQRT_PRICE_X64), None, false),
        without.swap(5, None, None, false)
    );
    assert_eq!(with_limit, without);
}

#[test]
fn swap_from_a_to_b_pays_nothing() {
    let mut ctx = trade(vec![boundary(-200100, 0)]);
    ctx.config.active_liquidity = 20_000;
    let before = ctx.clone();
    // A partial step: the budget is spent and the price falls, but the
    // output rounds to nothing.
    assert_eq!(ctx.swap(1000, None, None, true), Err(CLMMError::ZeroSwapOutput));
    assert_eq!(ctx, before);
    assert_eq!(
        ctx.swap(1000, None, Some(1), true),
        Err(CLMMError::SlippageExceeded)
    );
    assert_eq!(ctx, before);
    assert_eq!(
        ctx.swap(1000, None, Some(0), true),
        Err(CLMMError::ZeroSwapOutput)
    );
    // A full step pays nothing either.
    assert_eq!(
        ctx.swap(200_000_000, None, None, true),
        Err(CLMMError::ZeroSwapOutput)
    );
    // A limit above the boundary ends the walk before the first step.
    assert_eq!(
        ctx.swap(1000, Some(MIDDLE), None, true),
        Err(CLMMError::ZeroSwapOutput)
    );
    ctx.config.active_liquidity = 1_000_000;
    assert_eq!(
        ctx.swap(10_000_000, None, None, true),
        Err(CLMMError::ZeroSwapOutput)
    );
    assert_eq!(
        ctx.swap(10_000_000, None, Some(1), true),
        Err(CLMMError::SlippageExceeded)
    );
}

#[test]
fn swap_checks_come_in_order() {
    let good = trade(vec![boundary(-199900, -400_000)]);

    let mut ctx = trade(vec![]);
    ctx.config.active_liquidity = 0;
    ctx.mintb = MINT_A;
    assert_eq!(ctx.swap(0, None, None, false), Err(CLMMError::ZeroAmount));
    assert_eq!(ctx.swap(1, None, None, false), Err(CLMMError::MissingTickData));

    let mut ctx = good.clone();
    ctx.config.active_liquidity = 0;
    ctx.mintb = MINT_A;
    let before = ctx.clone();
    assert_eq!(ctx.swap(1, None, None, false), Err(CLMMError::InvalidTokenMint));
    assert_eq!(ctx, before);
    ctx.mintb = MINT_B;
    ctx.config.minta = MINT_B;
    assert_eq!(ctx.swap(1, None, None, false), Err(CLMMError::InvalidTokenMint));
    ctx.config.minta = MINT_A;
    assert_eq!(
        ctx.swap(1, None, None, false),
        Err(CLMMError::InsufficientLiquidity)
    );
}

#[test]
fn swap_refuses_boundaries_without_a_price() {
    let mut ctx = trade(vec![boundary(300000, 0)]);
    let before = ctx.clone();
    assert_eq!(ctx.swap(5, None, None, false), Err(CLMMError::TickOutOfRange));
    assert_eq!(ctx, before);
    let mut ctx = trade(vec![boundary(-199900, 0), boundary(-221819, 0)]);
    let before = ctx.clone();
    assert_eq!(ctx.swap(5, None, None, false), Err(CLMMError::TickOutOfRange));
    assert_eq!(ctx, before);
}

#[test]
fn swap_reports_overflow() {
    // Liquidity that would fall below zero across the boundary.
    let mut ctx = trade(vec![boundary(-199900, -1_000_001)]);
    let before = ctx.clone();
    assert_eq!(
        ctx.swap(5, None, None, false),
        Err(CLMMError::ArithmeticOverflow)
    );
    assert_eq!(ctx, before);
    let mut ctx = trade(vec![boundary(-199900, i128::MIN)]);
    assert_eq!(
        ctx.swap(5, None, None, false),
        Err(CLMMError::ArithmeticOverflow)
    );
    // A boundary on the wrong side of the price.
    let mut ctx = trade(vec![boundary(-200100, 0)]);
    assert_eq!(
        ctx.swap(5, None, None, false),
        Err(CLMMError::ArithmeticOverflow)
    );
    // Prices at or above one overflow the product of two prices.
    let mut ctx = trade(vec![boundary(50, 0)]);
    ctx.config.sqrt_price = tick_to_sqrt_price_x64(100).unwrap();
    ctx.config.current_tick = 100;
    let before = ctx.clone();
    assert_eq!(
        ctx.swap(5, None, None, true),
        Err(CLMMError::ArithmeticOverflow)
    );
    assert_eq!(ctx, before);
}

#[test]
fn swap_applies_the_delta_by_direction() {
    // Falling across a boundary subtracts its net liquidity, rising adds
    // it. A trade from A to B that reaches its boundary with no input
    // needed pays nothing, so only the failure shows the sign.
    let mut falling = trade(vec![boundary(-200000, 1_000_001)]);
    assert_eq!(
        falling.swap(5, None, None, true),
        Err(CLMMError::ArithmeticOverflow)
    );
    let mut rising = trade(vec![boundary(-199900, 1_000_001)]);
    assert_eq!(rising.swap(5, None, None, false), Ok((0, 109797069)));
    assert_eq!(rising.config.active_liquidity, 2_000_001);
}
