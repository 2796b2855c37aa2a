use clmm::error::CLMMError;
use clmm::liquidity_math::calculate_liquidity_amounts;
use clmm::price_math::tick_to_sqrt_price_x64;

const LOWER: u128 = 833720868728505; // tick -200100
const MIDDLE: u128 = 837899702512935; // tick -200000
const UPPER: u128 = 842099481739003; // tick -199900

#[test]
fn named_prices_are_tick_prices() {
    assert_eq!(tick_to_sqrt_price_x64(-200100), Ok(LOWER));
    assert_eq!(tick_to_sqrt_price_x64(-200000), Ok(MIDDLE));
    assert_eq!(tick_to_sqrt_price_x64(-199900), Ok(UPPER));
}

#[test]
fn range_above_the_price_is_all_asset_a() {
    assert_eq!(
        calculate_liquidity_amounts(LOWER, LOWER, UPPER, 1_000_000),
        Ok((220144470, 0))
    );
    assert_eq!(
        calculate_liquidity_amounts(LOWER - 1, LOWER, UPPER, 1000),
        Ok((220144, 0))
    );
    assert_eq!(
        calculate_liquidity_amounts(1, LOWER, UPPER, 1),
        Ok((220, 0))
    );
}

#[test]
fn range_below_the_price_is_all_asset_b() {
    let lower = tick_to_sqrt_price_x64(-100).unwrap();
    let upper = tick_to_sqrt_price_x64(100).unwrap();
    assert_eq!(
        calculate_liquidity_amounts(upper, lower, upper, 1000),
        Ok((0, 9))
    );
    assert_eq!(
        calculate_liquidity_amounts(upper + 5, lower, upper, 1_000_000),
        Ok((0, 9999))
    );
    assert_eq!(
        calculate_liquidity_amounts(u128::MAX, lower, upper, 1_000_000_000_000),
        Ok((0, 9999541693))
    );
}

#[test]
fn small_liquidity_rounds_to_nothing() {
    let lower = tick_to_sqrt_price_x64(-100).unwrap();
    let upper = tick_to_sqrt_price_x64(100).unwrap();
    assert_eq!(calculate_liquidity_amounts(upper, lower, upper, 1), Ok((0, 0)));
    assert_eq!(calculate_liquidity_amounts(upper, lower, upper, 0), Ok((0, 0)));
    assert_eq!(calculate_liquidity_amounts(UPPER, LOWER, UPPER, 1000), Ok((0, 0)));
}

#[test]
fn price_inside_the_range_splits_the_position() {
    assert_eq!(
        calculate_liquidity_amounts(MIDDLE, LOWER, UPPER, 1_000_000),
        Ok((109797069, 0))
    );
    let current = tick_to_sqrt_price_x64(-100000).unwrap();
    let lower = tick_to_sqrt_price_x64(-221810).unwrap();
    let upper = tick_to_sqrt_price_x64(-99990).unwrap();
    assert_eq!(calculate_liquidity_amounts(current, lower, upper, 1000), Ok((74, 6)));
    assert_eq!(calculate_liquidity_amounts(current, lower, upper, 5000), Ok((370, 33)));
    assert_eq!(
        calculate_liquidity_amounts(current, lower, upper, 100_000),
        Ok((7416, 672))
    );
}

#[test]
fn overflow_is_reported() {
    // The numerator of asset A exceeds 128 bits.
    assert_eq!(
        calculate_liquidity_amounts(LOWER, LOWER, UPPER, 10_000_000),
        Err(CLMMError::ArithmeticOverflow)
    );
    // The denominator of asset A exceeds 128 bits.
    let lower = tick_to_sqrt_price_x64(-100).unwrap();
    let upper = tick_to_sqrt_price_x64(100).unwrap();
    assert_eq!(
        calculate_liquidity_amounts(lower, lower, upper, 1),
        Ok((0, 0))
    );
    assert_eq!(
        calculate_liquidity_amounts(lower, lower, upper, 1000),
        Err(CLMMError::ArithmeticOverflow)
    );
    assert_eq!(
        calculate_liquidity_amounts(1u128 << 100, 1u128 << 100, 1u128 << 101, 0),
        Err(CLMMError::ArithmeticOverflow)
    );
    // The product of asset B exceeds 128 bits.
    assert_eq!(
        calculate_liquidity_amounts(u128::MAX, 0, u128::MAX, 2),
        Err(CLMMError::ArithmeticOverflow)
    );
    // The amount of asset A exceeds 64 bits.
    assert_eq!(
        calculate_liquidity_amounts(1, 1, 2, 1u128 << 63),
        Err(CLMMError::ArithmeticOverflow)
    );
    // The largest amount of asset B still fits.
    assert_eq!(
        calculate_liquidity_amounts(u128::MAX, 0, u128::MAX, 1),
        Ok((0, u64::MAX))
    );
}

#[test]
fn reversed_range_is_an_overflow() {
    assert_eq!(
        calculate_liquidity_amounts(LOWER, UPPER, LOWER, 1000),
        Err(CLMMError::ArithmeticOverflow)
    );
    assert_eq!(
        calculate_liquidity_amounts(UPPER, UPPER, LOWER, 1000),
        Err(CLMMError::ArithmeticOverflow)
    );
}

#[test]
fn zero_price_bound_is_an_overflow() {
    assert_eq!(
        calculate_liquidity_amounts(0, 0, UPPER, 1),
        Err(CLMMError::ArithmeticOverflow)
    );
}

#[test]
fn empty_range_holds_nothing() {
    assert_eq!(calculate_liquidity_amounts(LOWER, UPPER, UPPER, 1000), Ok((0, 0)));
    assert_eq!(calculate_liquidity_amounts(UPPER, LOWER, LOWER, 1000), Ok((0, 0)));
}

#[test]
fn same_inputs_give_same_amounts() {
    let inputs: [(u128, u128, u128, u128); 5] = [
        (MIDDLE, LOWER, UPPER, 1_000_000),
        (LOWER, LOWER, UPPER, 1_000_000),
        (UPPER, LOWER, UPPER, 10_000_000),
        (LOWER, LOWER, UPPER, 10_000_000),
        (0, 0, 0, 0),
    ];
    for (current, lower, upper, liquidity) in inputs {
        let first = calculate_liquidity_amounts(current, lower, upper, liquidity);
        let second = calculate_liquidity_amounts(current, lower, upper, liquidity);
        assert_eq!(first, second);
    }
}
