use clmm::error::CLMMError;
use clmm::price_math::{
    integer_sqrt, price_to_sqrt_price_x64, sqrt_price_x64_to_tick, tick_to_sqrt_price_x64,
    MAX_SQRT_PRICE_X64, MAX_TICK, MIN_SQRT_PRICE_X64, MIN_TICK, Q64, TICK_SPACING,
};

#[test]
fn constants_have_their_values() {
    assert_eq!(Q64, 1u128 << 64);
    assert_eq!(TICK_SPACING, 10);
    assert_eq!(MAX_TICK, 221818);
    assert_eq!(MIN_TICK, -221818);
    assert_eq!(MIN_SQRT_PRICE_X64, 281477621742250);
    assert_eq!(MAX_SQRT_PRICE_X64, 1208914459397188474801738);
}

#[test]
fn integer_sqrt_rounds_down() {
    assert_eq!(integer_sqrt(0), 0);
    assert_eq!(integer_sqrt(1), 1);
    assert_eq!(integer_sqrt(2), 1);
    assert_eq!(integer_sqrt(3), 1);
    assert_eq!(integer_sqrt(4), 2);
    assert_eq!(integer_sqrt(15), 3);
    assert_eq!(integer_sqrt(16), 4);
    assert_eq!(integer_sqrt(17), 4);
    assert_eq!(integer_sqrt(40000), 200);
    assert_eq!(integer_sqrt((1u128 << 64) - 1), 4294967295);
    assert_eq!(integer_sqrt(u128::MAX), u64::MAX);
}

#[test]
fn integer_sqrt_brackets_its_argument() {
    let mut value: u128 = 1;
    while value < (1u128 << 120) {
        let root = integer_sqrt(value) as u128;
        assert!(root * root <= value);
        assert!((root + 1) * (root + 1) > value);
        value = value * 3 + 7;
    }
}

#[test]
fn price_of_zero_is_refused() {
    assert_eq!(price_to_sqrt_price_x64(0), Err(CLMMError::ZeroAmount));
}

#[test]
fn price_converts_to_scaled_root() {
    assert_eq!(price_to_sqrt_price_x64(1), Ok(18446744073709551616));
    assert_eq!(price_to_sqrt_price_x64(2), Ok(18446744073709551616));
    assert_eq!(price_to_sqrt_price_x64(4), Ok(36893488147419103232));
    assert_eq!(price_to_sqrt_price_x64(100), Ok(184467440737095516160));
    assert_eq!(
        price_to_sqrt_price_x64(u64::MAX),
        Ok(79228162495817593519834398720)
    );
}

#[test]
fn tick_zero_is_price_one() {
    assert_eq!(tick_to_sqrt_price_x64(0), Ok(1u128 << 64));
}

#[test]
fn tick_prices_match_the_table() {
    assert_eq!(tick_to_sqrt_price_x64(1), Ok(18447666387855957090));
    assert_eq!(tick_to_sqrt_price_x64(-1), Ok(18445821805675395072));
    assert_eq!(tick_to_sqrt_price_x64(10), Ok(18455969290605287889));
    assert_eq!(tick_to_sqrt_price_x64(-10), Ok(18437523468038803493));
    assert_eq!(tick_to_sqrt_price_x64(100), Ok(18539204128674375874));
    assert_eq!(tick_to_sqrt_price_x64(-100), Ok(18354745142194513203));
    assert_eq!(tick_to_sqrt_price_x64(-200000), Ok(837899702512935));
    assert_eq!(
        tick_to_sqrt_price_x64(MAX_TICK),
        Ok(1208914459397188474801737)
    );
    assert_eq!(tick_to_sqrt_price_x64(MIN_TICK), Ok(281477621742250));
}

#[test]
fn ticks_beyond_the_bounds_are_refused() {
    assert_eq!(
        tick_to_sqrt_price_x64(MAX_TICK + 1),
        Err(CLMMError::TickOutOfRange)
    );
    assert_eq!(
        tick_to_sqrt_price_x64(MIN_TICK - 1),
        Err(CLMMError::TickOutOfRange)
    );
    assert_eq!(
        tick_to_sqrt_price_x64(443636),
        Err(CLMMError::TickOutOfRange)
    );
    assert_eq!(
        tick_to_sqrt_price_x64(i32::MAX),
        Err(CLMMError::TickOutOfRange)
    );
    assert_eq!(
        tick_to_sqrt_price_x64(i32::MIN),
        Err(CLMMError::TickOutOfRange)
    );
}

#[test]
fn tick_prices_rise_with_the_tick() {
    let mut previous = tick_to_sqrt_price_x64(MIN_TICK).unwrap();
    let mut tick = MIN_TICK + 1;
    while tick <= MAX_TICK {
        let price = tick_to_sqrt_price_x64(tick).unwrap();
        assert!(previous < price, "tick {}", tick);
        previous = price;
        tick += 1;
    }
}

#[test]
fn price_bounds_are_those_of_the_tick_bounds() {
    assert_eq!(tick_to_sqrt_price_x64(MIN_TICK), Ok(MIN_SQRT_PRICE_X64));
    assert_eq!(tick_to_sqrt_price_x64(MAX_TICK), Ok(MAX_SQRT_PRICE_X64 - 1));
    assert_eq!(sqrt_price_x64_to_tick(MIN_SQRT_PRICE_X64), Ok(MIN_TICK));
    assert_eq!(sqrt_price_x64_to_tick(MAX_SQRT_PRICE_X64 - 1), Ok(MAX_TICK));
}

#[test]
fn round_trip_returns_the_tick() {
    let mut tick = MIN_TICK;
    while tick <= MAX_TICK {
        let price = tick_to_sqrt_price_x64(tick).unwrap();
        let back = sqrt_price_x64_to_tick(price).unwrap();
        assert!((back - tick).abs() <= 1, "tick {}", tick);
        tick += 1;
    }
}

#[test]
fn round_trip_is_exact() {
    let mut tick = MIN_TICK;
    while tick <= MAX_TICK {
        let price = tick_to_sqrt_price_x64(tick).unwrap();
        assert_eq!(sqrt_price_x64_to_tick(price), Ok(tick));
        tick += 7;
    }
    assert_eq!(
        sqrt_price_x64_to_tick(tick_to_sqrt_price_x64(MAX_TICK).unwrap()),
        Ok(MAX_TICK)
    );
}

#[test]
fn price_converts_to_the_highest_tick_below_it() {
    let mut tick = MIN_TICK;
    while tick < MAX_TICK {
        let here = tick_to_sqrt_price_x64(tick).unwrap();
        let next = tick_to_sqrt_price_x64(tick + 1).unwrap();
        assert_eq!(sqrt_price_x64_to_tick(here + (next - here) / 2), Ok(tick));
        assert_eq!(sqrt_price_x64_to_tick(next - 1), Ok(tick));
        tick += 997;
    }
}

#[test]
fn price_one_is_tick_zero() {
    assert_eq!(sqrt_price_x64_to_tick(1u128 << 64), Ok(0));
}

#[test]
fn prices_between_ticks_round_down() {
    let five = tick_to_sqrt_price_x64(5).unwrap();
    assert_eq!(sqrt_price_x64_to_tick(five - 1), Ok(4));
    assert_eq!(sqrt_price_x64_to_tick(five), Ok(5));
    assert_eq!(sqrt_price_x64_to_tick(five + 1), Ok(5));
    let minus_five = tick_to_sqrt_price_x64(-5).unwrap();
    assert_eq!(sqrt_price_x64_to_tick(minus_five - 1), Ok(-6));
    assert_eq!(sqrt_price_x64_to_tick(minus_five), Ok(-5));
    assert_eq!(sqrt_price_x64_to_tick(minus_five + 1), Ok(-5));
    let thousand = tick_to_sqrt_price_x64(1000).unwrap();
    assert_eq!(sqrt_price_x64_to_tick(thousand - 1), Ok(999));
    assert_eq!(sqrt_price_x64_to_tick(thousand + 1), Ok(1000));
    assert_eq!(sqrt_price_x64_to_tick(36893488147419103232), Ok(13863));
    assert_eq!(
        sqrt_price_x64_to_tick(583322941098843441201152),
        Ok(207242)
    );
}

#[test]
fn prices_outside_the_bounds_are_refused() {
    assert_eq!(sqrt_price_x64_to_tick(0), Err(CLMMError::SqrtPriceOutOfRange));
    assert_eq!(
        sqrt_price_x64_to_tick(MIN_SQRT_PRICE_X64 - 1),
        Err(CLMMError::SqrtPriceOutOfRange)
    );
    assert_eq!(
        sqrt_price_x64_to_tick(MAX_SQRT_PRICE_X64),
        Err(CLMMError::SqrtPriceOutOfRange)
    );
    assert_eq!(
        sqrt_price_x64_to_tick(u128::MAX),
        Err(CLMMError::SqrtPriceOutOfRange)
    );
}

#[test]
fn prices_past_the_tick_bounds_are_refused() {
    assert_eq!(
        sqrt_price_x64_to_tick(281477621742249),
        Err(CLMMError::SqrtPriceOutOfRange)
    );
    assert_eq!(
        sqrt_price_x64_to_tick(4295048016),
        Err(CLMMError::SqrtPriceOutOfRange)
    );
    assert_eq!(
        sqrt_price_x64_to_tick(1u128 << 80),
        Err(CLMMError::SqrtPriceOutOfRange)
    );
    assert_eq!(
        sqrt_price_x64_to_tick(1u128 << 83),
        Err(CLMMError::SqrtPriceOutOfRange)
    );
    assert_eq!(
        sqrt_price_x64_to_tick(79226673521066979257578248090),
        Err(CLMMError::SqrtPriceOutOfRange)
    );
}

#[test]
fn every_price_inside_the_bounds_has_a_tick_at_or_below_it() {
    // A sweep of the whole range in steps of about one part in 2000.
    let mut price = MIN_SQRT_PRICE_X64;
    while price < MAX_SQRT_PRICE_X64 {
        let tick = sqrt_price_x64_to_tick(price).unwrap();
        assert!(MIN_TICK <= tick && tick <= MAX_TICK);
        assert!(tick_to_sqrt_price_x64(tick).unwrap() <= price);
        if tick < MAX_TICK {
            assert!(price < tick_to_sqrt_price_x64(tick + 1).unwrap());
        }
        price += price / 2048 + 1;
    }
}
