use clmm::error::CLMMError;
use clmm::price_math::tick_to_sqrt_price_x64;
use clmm::swap_math::compute_swap_step;

const LOWER: u128 = 833720868728505; // tick -200100
const MIDDLE: u128 = 837899702512935; // tick -200000
const UPPER: u128 = 842099481739003; // tick -199900

#[test]
fn full_step_ends_on_the_boundary() {
    let current = tick_to_sqrt_price_x64(-10).unwrap();
    let boundary = tick_to_sqrt_price_x64(-20).unwrap();
    assert_eq!(current, 18437523468038803493);
    assert_eq!(boundary, 18428307471288122970);
    let liquidity: u128 = 2000;
    let required_in = liquidity * (current - boundary) * (1u128 << 64) / (current * boundary);
    assert_eq!(required_in, 1);
    let (next_price, amount_in, amount_out) =
        compute_swap_step(current, boundary, liquidity, 1000, true).unwrap();
    assert_eq!(next_price, boundary);
    assert_eq!(amount_in, required_in);
    assert_eq!(amount_out, 0);
}

#[test]
fn full_step_with_exactly_the_required_input() {
    let required_in: u128 = 2206948;
    assert_eq!(
        compute_swap_step(MIDDLE, LOWER, 20_000, required_in, true),
        Ok((LOWER, required_in, 0))
    );
    assert_eq!(
        compute_swap_step(MIDDLE, LOWER, 20_000, required_in + 5, true),
        Ok((LOWER, required_in, 0))
    );
    let (next_price, amount_in, _) =
        compute_swap_step(MIDDLE, LOWER, 20_000, required_in - 1, true).unwrap();
    assert!(next_price > LOWER);
    assert_eq!(next_price, 833720870672441);
    assert_eq!(amount_in, required_in - 1);
}

#[test]
fn partial_step_from_a_to_b_goes_as_far_as_the_budget_pays() {
    let q: u128 = 1 << 64;
    let liquidity: u128 = 20_000;
    let budgets: [(u128, u128); 3] = [
        (1000, 837897799536686),
        (1_000_000, 836001034067851),
        (2206947, 833720870672441),
    ];
    for (budget, expected) in budgets {
        let (next_price, amount_in, amount_out) =
            compute_swap_step(MIDDLE, LOWER, liquidity, budget, true).unwrap();
        assert_eq!(next_price, expected);
        assert_eq!(amount_in, budget);
        assert_eq!(amount_out, 0);
        // The move is worth the budget or one less, and one unit of price
        // further would be worth more than the budget.
        let worth = liquidity * (MIDDLE - next_price) * q / (MIDDLE * next_price);
        assert!(worth <= budget && budget - worth <= 1);
        assert!(
            liquidity * (MIDDLE - (next_price - 1)) * q > budget * (MIDDLE * (next_price - 1))
        );
    }
}

#[test]
fn partial_step_from_a_to_b_rounds_toward_the_current_price() {
    // One third of 2^64, rounded up: from a price of one half, a budget
    // as large as the liquidity triples the inverse of the price.
    assert_eq!(
        compute_swap_step(1 << 63, 1 << 62, 2, 2, true),
        Ok((6148914691236517206, 2, 0))
    );
    assert_eq!(
        compute_swap_step(1 << 63, 1 << 62, 1, 1, true),
        Ok((6148914691236517206, 1, 0))
    );
    assert_eq!(
        compute_swap_step(1 << 32, 1 << 31, 1 << 31, 1 << 62, true),
        Ok((2863311531, 1 << 62, 0))
    );
    // A budget of nothing moves nothing.
    assert_eq!(
        compute_swap_step(MIDDLE, LOWER, 20_000, 0, true),
        Ok((MIDDLE, 0, 0))
    );
}

#[test]
fn partial_step_from_a_to_b_with_a_wide_numerator() {
    // `liquidity * current * 2^64` exceeds 128 bits; the price does not.
    assert_eq!(
        compute_swap_step(MIDDLE, LOWER, 1_000_000, 1000, true),
        Ok((837899664453326, 1000, 0))
    );
    assert_eq!(
        compute_swap_step(MIDDLE, LOWER, 1_000_000, 10_000_000, true),
        Ok((837519279196992, 10_000_000, 0))
    );
    assert_eq!(
        compute_swap_step(MIDDLE, LOWER, 1_000_000, 110347400, true),
        Ok((833720868788395, 110347400, 0))
    );
    assert_eq!(
        compute_swap_step(MIDDLE, LOWER, 1_000_000, 110347401, true),
        Ok((LOWER, 110347401, 0))
    );
}

#[test]
fn partial_step_from_a_to_b_reports_overflow() {
    // The denominator `liquidity * 2^64 + budget * current` exceeds 128
    // bits.
    assert_eq!(
        compute_swap_step(2, 1, u64::MAX as u128, 1 << 126, true),
        Err(CLMMError::ArithmeticOverflow)
    );
    assert_eq!(
        compute_swap_step(2, 1, u64::MAX as u128, 1 << 62, true),
        Ok((2, 1 << 62, 0))
    );
}

#[test]
fn full_step_from_b_to_a() {
    assert_eq!(
        compute_swap_step(MIDDLE, UPPER, 1_000_000, 5, false),
        Ok((UPPER, 0, 109797069))
    );
    assert_eq!(compute_swap_step(MIDDLE, UPPER, 0, 1, false), Ok((UPPER, 0, 0)));
}

#[test]
fn partial_step_from_b_to_a_spends_the_budget() {
    assert_eq!(
        compute_swap_step(MIDDLE, UPPER, 18446744073709551615, 1, false),
        Ok((837899702512936, 1, 484680305))
    );
    assert_eq!(
        compute_swap_step(MIDDLE, UPPER, 13835058055282163712, 1, false),
        Ok((837899702512936, 1, 363510228))
    );
}

#[test]
fn step_against_the_direction_is_an_overflow() {
    assert_eq!(
        compute_swap_step(LOWER, MIDDLE, 1000, 1000, true),
        Err(CLMMError::ArithmeticOverflow)
    );
    assert_eq!(
        compute_swap_step(MIDDLE, LOWER, 1000, 1000, false),
        Err(CLMMError::ArithmeticOverflow)
    );
}

#[test]
fn step_overflow_is_reported() {
    let current = tick_to_sqrt_price_x64(-10).unwrap();
    let boundary = tick_to_sqrt_price_x64(-20).unwrap();
    assert_eq!(
        compute_swap_step(current, boundary, 1u128 << 64, 1000, true),
        Err(CLMMError::ArithmeticOverflow)
    );
    // The product of the two prices exceeds 128 bits.
    let above = tick_to_sqrt_price_x64(100).unwrap();
    let below = tick_to_sqrt_price_x64(50).unwrap();
    assert_eq!(
        compute_swap_step(above, below, 1, 1, true),
        Err(CLMMError::ArithmeticOverflow)
    );
    // The output of a trade from B to A exceeds 128 bits.
    assert_eq!(
        compute_swap_step(MIDDLE, UPPER, 1u128 << 63, 1, false),
        Err(CLMMError::ArithmeticOverflow)
    );
    // A price of zero divides by zero.
    assert_eq!(
        compute_swap_step(0, 0, 1, 1, true),
        Err(CLMMError::ArithmeticOverflow)
    );
}

#[test]
fn step_never_takes_more_than_the_budget() {
    let budgets: [u128; 5] = [0, 1, 1000, 2206947, 2206949];
    for budget in budgets {
        let (_, amount_in, _) = compute_swap_step(MIDDLE, LOWER, 20_000, budget, true).unwrap();
        assert!(amount_in <= budget);
    }
}
