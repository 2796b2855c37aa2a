use clmm::error::CLMMError;
use clmm::instructions::add_liquidity::Liquidity;
use clmm::instructions::init_pool::InitializePool;
use clmm::instructions::init_tick::InitialTick;
use clmm::instructions::withdraw::Withdraw;
use clmm::state::{is_aligned, same_mint, tick, Pool, Settlement};
use clmm::{add_liquidity, init_pool, init_tick, withdraw_liquidity};

const MINT_A: [u8; 32] = [1; 32];
const MINT_B: [u8; 32] = [2; 32];
const MIDDLE: u128 = 837899702512935; // tick -200000

fn new_tick(index: i32) -> tick {
    let mut ctx = InitialTick {
        tick: tick { sqrt_price_x64: 0, liquidity: 77, index },
    };
    ctx.initializetick().unwrap();
    ctx.tick
}

fn pool_at(sqrt_price: u128, current_tick: i32) -> Pool {
    Pool {
        minta: MINT_A,
        mintb: MINT_B,
        sqrt_price,
        active_liquidity: 0,
        total_lp_issued: 0,
        current_tick,
    }
}

fn deposit_at(pool: Pool, lower: i32, upper: i32) -> Liquidity {
    Liquidity {
        minta: MINT_A,
        mintb: MINT_B,
        vaulta: 0,
        config: pool,
        vault_b: 0,
        uppertick: new_tick(upper),
        lowertick: new_tick(lower),
    }
}

fn withdrawal_at(pool: Pool, lower: i32, upper: i32) -> Withdraw {
    Withdraw {
        minta: MINT_A,
        mintb: MINT_B,
        user_lp_account: 0,
        vaulta: 0,
        config: pool,
        vault_b: 0,
        uppertick: new_tick(upper),
        lowertick: new_tick(lower),
    }
}

#[test]
fn alignment_goes_by_the_tick_spacing() {
    assert!(is_aligned(0));
    assert!(is_aligned(10));
    assert!(is_aligned(-10));
    assert!(is_aligned(-221810));
    assert!(!is_aligned(1));
    assert!(!is_aligned(-1));
    assert!(!is_aligned(15));
    assert!(!is_aligned(-221818));
    assert!(!is_aligned(i32::MIN));
    assert!(!is_aligned(i32::MAX));
}

#[test]
fn mints_compare_by_their_bytes() {
    let mut other = MINT_A;
    assert!(same_mint(&MINT_A, &other));
    other[31] = 9;
    assert!(!same_mint(&MINT_A, &other));
    other = MINT_A;
    other[0] = 9;
    assert!(!same_mint(&MINT_A, &other));
    assert!(!same_mint(&MINT_A, &MINT_B));
}

#[test]
fn new_tick_gets_its_price_and_no_liquidity() {
    let mut ctx = InitialTick {
        tick: tick { sqrt_price_x64: 5, liquidity: -3, index: -200000 },
    };
    assert_eq!(ctx.initializetick(), Ok(()));
    assert_eq!(
        ctx.tick,
        tick { sqrt_price_x64: MIDDLE, liquidity: 0, index: -200000 }
    );
    let mut zero = InitialTick {
        tick: tick { sqrt_price_x64: 0, liquidity: 0, index: 0 },
    };
    assert_eq!(init_tick(&mut zero), Ok(()));
    assert_eq!(zero.tick.sqrt_price_x64, 1u128 << 64);
}

#[test]
fn new_tick_must_be_aligned_and_in_range() {
    let before = tick { sqrt_price_x64: 5, liquidity: -3, index: 15 };
    let mut ctx = InitialTick { tick: before };
    assert_eq!(ctx.initializetick(), Err(CLMMError::UnalignedTick));
    assert_eq!(ctx.tick, before);
    let far = tick { sqrt_price_x64: 5, liquidity: -3, index: 221820 };
    let mut ctx = InitialTick { tick: far };
    assert_eq!(init_tick(&mut ctx), Err(CLMMError::TickOutOfRange));
    assert_eq!(ctx.tick, far);
    let odd = tick { sqrt_price_x64: 5, liquidity: -3, index: 300001 };
    let mut ctx = InitialTick { tick: odd };
    assert_eq!(ctx.initializetick(), Err(CLMMError::UnalignedTick));
}

#[test]
fn new_pool_starts_at_the_price() {
    let ctx = InitializePool { minta: MINT_A, mintb: MINT_B };
    assert_eq!(
        ctx.initializepool(1),
        Ok(Pool {
            minta: MINT_A,
            mintb: MINT_B,
            sqrt_price: 1u128 << 64,
            active_liquidity: 0,
            total_lp_issued: 0,
            current_tick: 0,
        })
    );
    let pool = init_pool(&ctx, 100).unwrap();
    assert_eq!(pool.sqrt_price, 184467440737095516160);
    assert_eq!(pool.current_tick, 46054);
    let pool = init_pool(&ctx, 1_000_000_000).unwrap();
    assert_eq!(pool.sqrt_price, 583322941098843441201152);
    assert_eq!(pool.current_tick, 207242);
}

#[test]
fn new_pool_refuses_prices_without_a_tick() {
    let ctx = InitializePool { minta: MINT_A, mintb: MINT_B };
    assert_eq!(ctx.initializepool(0), Err(CLMMError::ZeroAmount));
    assert_eq!(init_pool(&ctx, 0), Err(CLMMError::ZeroAmount));
    assert_eq!(
        ctx.initializepool(u64::MAX),
        Err(CLMMError::SqrtPriceOutOfRange)
    );
    assert_eq!(
        ctx.initializepool(4294967296),
        Err(CLMMError::SqrtPriceOutOfRange)
    );
}

#[test]
fn new_pool_at_the_highest_price() {
    let ctx = InitializePool { minta: MINT_A, mintb: MINT_B };
    let pool = ctx.initializepool(4294967295).unwrap();
    assert_eq!(pool.sqrt_price, 1208907372870555465154560);
    assert_eq!(pool.current_tick, 221817);
}

#[test]
fn first_deposit_inside_the_range() {
    let mut ctx = deposit_at(pool_at(MIDDLE, -200000), -200100, -199900);
    let before = ctx;
    assert_eq!(
        ctx.add_liqiudity(-200100, -199900, 1_000_000),
        Ok(Settlement { amount_a: 109797069, amount_b: 0, lp_shares: 109797069 })
    );
    assert_eq!(ctx.lowertick.liquidity, 1_000_000);
    assert_eq!(ctx.uppertick.liquidity, -1_000_000);
    assert_eq!(ctx.config.active_liquidity, 1_000_000);
    assert_eq!(ctx.config.total_lp_issued, 109797069);
    assert_eq!(ctx.config.sqrt_price, before.config.sqrt_price);
    assert_eq!(ctx.config.current_tick, before.config.current_tick);
    assert_eq!(ctx.lowertick.index, -200100);
    assert_eq!(ctx.uppertick.sqrt_price_x64, before.uppertick.sqrt_price_x64);
    assert_eq!(ctx.vaulta, 0);
    assert_eq!(ctx.vault_b, 0);
}

#[test]
fn deposit_of_both_assets() {
    let current = 124324258983086206; // tick -100000
    let mut ctx = deposit_at(pool_at(current, -100000), -221810, -99990);
    assert_eq!(
        add_liquidity(&mut ctx, -221810, -99990, 100_000),
        Ok(Settlement { amount_a: 7416, amount_b: 672, lp_shares: 2232 })
    );
    assert_eq!(ctx.config.total_lp_issued, 2232);
    assert_eq!(ctx.config.active_liquidity, 100_000);
    // A second deposit of the same position against the reserves that the
    // first one left mints as many shares again.
    ctx.vaulta = 7416;
    ctx.vault_b = 672;
    assert_eq!(
        add_liquidity(&mut ctx, -221810, -99990, 100_000),
        Ok(Settlement { amount_a: 7416, amount_b: 672, lp_shares: 2232 })
    );
    assert_eq!(ctx.config.total_lp_issued, 4464);
    assert_eq!(ctx.config.active_liquidity, 200_000);
    assert_eq!(ctx.lowertick.liquidity, 200_000);
    assert_eq!(ctx.uppertick.liquidity, -200_000);
}

#[test]
fn deposit_outside_the_range_leaves_active_liquidity() {
    // The pool's tick is the upper end of the range, which the range
    // does not hold.
    let upper_price = 842099481739003; // tick -199900
    let mut pool = pool_at(upper_price, -199900);
    pool.active_liquidity = 5;
    let mut ctx = deposit_at(pool, -200100, -199900);
    assert_eq!(
        ctx.add_liqiudity(-200100, -199900, 10_000_000),
        Ok(Settlement { amount_a: 0, amount_b: 4, lp_shares: 4 })
    );
    assert_eq!(ctx.config.active_liquidity, 5);
    assert_eq!(ctx.lowertick.liquidity, 10_000_000);
    // The lower end belongs to the range.
    let lower_price = 833720868728505; // tick -200100
    let mut ctx = deposit_at(pool_at(lower_price, -200100), -200100, -199900);
    assert_eq!(
        ctx.add_liqiudity(-200100, -199900, 1_000_000),
        Ok(Settlement { amount_a: 220144470, amount_b: 0, lp_shares: 220144470 })
    );
    assert_eq!(ctx.config.active_liquidity, 1_000_000);
}

#[test]
fn deposit_checks_come_in_order() {
    let good = deposit_at(pool_at(MIDDLE, -200000), -200100, -199900);

    let mut ctx = good;
    assert_eq!(
        ctx.add_liqiudity(-200110, -199900, 1000),
        Err(CLMMError::InvalidTickIndex)
    );
    assert_eq!(ctx, good);
    assert_eq!(
        ctx.add_liqiudity(-200100, -199890, 1000),
        Err(CLMMError::InvalidTickIndex)
    );
    assert_eq!(ctx, good);

    let mut wrong_mint = good;
    wrong_mint.mintb = MINT_A;
    let before = wrong_mint;
    assert_eq!(
        wrong_mint.add_liqiudity(-200100, -199900, 1000),
        Err(CLMMError::InvalidTokenMint)
    );
    assert_eq!(wrong_mint, before);
    // An index that is wrong comes before a mint that is wrong.
    assert_eq!(
        wrong_mint.add_liqiudity(-200101, -199900, 1000),
        Err(CLMMError::InvalidTickIndex)
    );

    let mut unaligned = good;
    unaligned.lowertick.index = -200105;
    let before = unaligned;
    assert_eq!(
        unaligned.add_liqiudity(-200105, -199900, 1000),
        Err(CLMMError::UnalignedTick)
    );
    assert_eq!(unaligned, before);

    let mut full = good;
    full.lowertick.liquidity = i128::MAX;
    let before = full;
    assert_eq!(
        full.add_liqiudity(-200100, -199900, 1),
        Err(CLMMError::ArithmeticOverflow)
    );
    assert_eq!(full, before);
    let mut empty = good;
    empty.uppertick.liquidity = i128::MIN;
    assert_eq!(
        empty.add_liqiudity(-200100, -199900, 1),
        Err(CLMMError::ArithmeticOverflow)
    );

    let mut far = good;
    far.lowertick.index = -221820;
    let before = far;
    assert_eq!(
        far.add_liqiudity(-221820, -199900, 1000),
        Err(CLMMError::TickOutOfRange)
    );
    assert_eq!(far, before);

    let mut heavy = good;
    assert_eq!(
        heavy.add_liqiudity(-200100, -199900, u64::MAX),
        Err(CLMMError::ArithmeticOverflow)
    );
    assert_eq!(heavy, good);
}

#[test]
fn deposit_into_an_emptied_pool_is_refused() {
    let mut pool = pool_at(MIDDLE, -200000);
    pool.total_lp_issued = 10;
    let mut ctx = deposit_at(pool, -200100, -199900);
    let before = ctx;
    assert_eq!(
        ctx.add_liqiudity(-200100, -199900, 1_000_000),
        Err(CLMMError::PoolEmpty)
    );
    assert_eq!(ctx, before);
}

#[test]
fn deposit_checks_the_share_supply_and_the_active_liquidity() {
    let mut pool = pool_at(MIDDLE, -200000);
    pool.total_lp_issued = u64::MAX;
    let mut ctx = deposit_at(pool, -200100, -199900);
    ctx.vaulta = 109797069;
    let before = ctx;
    // The deposit is worth no shares, since asset B has no reserve.
    assert_eq!(
        ctx.add_liqiudity(-200100, -199900, 1_000_000),
        Ok(Settlement { amount_a: 109797069, amount_b: 0, lp_shares: 0 })
    );
    let mut ctx = before;
    ctx.config.active_liquidity = u128::MAX;
    let before = ctx;
    assert_eq!(
        ctx.add_liqiudity(-200100, -199900, 1_000_000),
        Err(CLMMError::ArithmeticOverflow)
    );
    assert_eq!(ctx, before);

    let current = 124324258983086206; // tick -100000
    let mut pool = pool_at(current, -100000);
    pool.total_lp_issued = u64::MAX;
    let mut ctx = deposit_at(pool, -221810, -99990);
    ctx.vaulta = u64::MAX;
    ctx.vault_b = u64::MAX;
    let before = ctx;
    assert_eq!(
        ctx.add_liqiudity(-221810, -99990, 100_000),
        Err(CLMMError::ArithmeticOverflow)
    );
    assert_eq!(ctx, before);
}

#[test]
fn deposit_entry_narrows_the_liquidity() {
    let mut ctx = deposit_at(pool_at(MIDDLE, -200000), -200100, -199900);
    let before = ctx;
    assert_eq!(
        add_liquidity(&mut ctx, -200100, -199900, 1u128 << 64),
        Err(CLMMError::AmountTooLarge)
    );
    assert_eq!(ctx, before);
    assert_eq!(
        add_liquidity(&mut ctx, -200100, -199900, (1u128 << 64) + 1_000_000),
        Err(CLMMError::AmountTooLarge)
    );
    assert_eq!(ctx, before);
}

#[test]
fn withdrawal_pays_out_and_burns() {
    let current = 124324258983086206; // tick -100000
    let mut pool = pool_at(current, -100000);
    pool.total_lp_issued = 4464;
    pool.active_liquidity = 200_000;
    let mut ctx = withdrawal_at(pool, -221810, -99990);
    ctx.lowertick.liquidity = 200_000;
    ctx.uppertick.liquidity = -200_000;
    ctx.vaulta = 14832;
    ctx.vault_b = 1344;
    ctx.user_lp_account = 2232;
    assert_eq!(
        ctx.add_liqiudity(-221810, -99990, 100_000),
        Ok(Settlement { amount_a: 7416, amount_b: 672, lp_shares: 2232 })
    );
    assert_eq!(ctx.lowertick.liquidity, 100_000);
    assert_eq!(ctx.uppertick.liquidity, -100_000);
    assert_eq!(ctx.config.active_liquidity, 100_000);
    assert_eq!(ctx.config.total_lp_issued, 2232);
    assert_eq!(ctx.user_lp_account, 2232);
    assert_eq!(ctx.vaulta, 14832);
    assert_eq!(ctx.vault_b, 1344);
}

#[test]
fn withdrawal_beyond_the_holding_is_refused() {
    let current = 124324258983086206; // tick -100000
    let mut pool = pool_at(current, -100000);
    pool.total_lp_issued = 4464;
    pool.active_liquidity = 200_000;
    let mut ctx = withdrawal_at(pool, -221810, -99990);
    ctx.lowertick.liquidity = 200_000;
    ctx.uppertick.liquidity = -200_000;
    ctx.vaulta = 14832;
    ctx.vault_b = 1344;
    ctx.user_lp_account = 2231;
    let before = ctx;
    assert_eq!(
        ctx.add_liqiudity(-221810, -99990, 100_000),
        Err(CLMMError::InsufficientLPTokens)
    );
    assert_eq!(ctx, before);
    assert_eq!(
        withdraw_liquidity(&mut ctx, -221810, -99990, 100_000),
        Err(CLMMError::InsufficientLPTokens)
    );
    assert_eq!(ctx, before);
    ctx.user_lp_account = 0;
    let before = ctx;
    assert_eq!(
        ctx.add_liqiudity(-221810, -99990, 100_000),
        Err(CLMMError::InsufficientLPTokens)
    );
    assert_eq!(ctx, before);
}

#[test]
fn withdrawal_outside_the_range_leaves_active_liquidity() {
    let upper_price = 842099481739003; // tick -199900
    let mut pool = pool_at(upper_price, -199900);
    pool.total_lp_issued = 100;
    pool.active_liquidity = 5;
    let mut ctx = withdrawal_at(pool, -200100, -199900);
    ctx.vault_b = 8;
    ctx.vaulta = 1;
    ctx.user_lp_account = 100;
    assert_eq!(
        ctx.add_liqiudity(-200100, -199900, 10_000_000),
        Ok(Settlement { amount_a: 0, amount_b: 4, lp_shares: 0 })
    );
    assert_eq!(ctx.config.active_liquidity, 5);
    assert_eq!(ctx.config.total_lp_issued, 100);
    assert_eq!(ctx.lowertick.liquidity, -10_000_000);
    assert_eq!(ctx.uppertick.liquidity, 10_000_000);
}

#[test]
fn withdrawal_checks_come_in_order() {
    let mut pool = pool_at(MIDDLE, -200000);
    pool.total_lp_issued = 10;
    pool.active_liquidity = 1_000_000;
    let mut good = withdrawal_at(pool, -200100, -199900);
    good.vaulta = 109797069;
    good.user_lp_account = 10;

    let mut ctx = good;
    assert_eq!(
        ctx.add_liqiudity(-199900, -200100, 0),
        Err(CLMMError::TickMismatch)
    );
    assert_eq!(
        ctx.add_liqiudity(-200100, -200100, 5),
        Err(CLMMError::TickMismatch)
    );
    assert_eq!(
        ctx.add_liqiudity(-200100, -199900, 0),
        Err(CLMMError::ZeroAmount)
    );
    assert_eq!(ctx, good);

    let mut unissued = good;
    unissued.config.total_lp_issued = 0;
    assert_eq!(
        unissued.add_liqiudity(-200101, -199900, 5),
        Err(CLMMError::PoolEmpty)
    );

    assert_eq!(
        ctx.add_liqiudity(-200101, -199900, 5),
        Err(CLMMError::InvalidTickIndex)
    );
    assert_eq!(
        ctx.add_liqiudity(-200100, -199800, 5),
        Err(CLMMError::InvalidTickIndex)
    );

    let mut wrong_mint = good;
    wrong_mint.minta = MINT_B;
    assert_eq!(
        wrong_mint.add_liqiudity(-200100, -199900, 5),
        Err(CLMMError::InvalidTokenMint)
    );

    let mut unaligned = good;
    unaligned.uppertick.index = -199895;
    assert_eq!(
        unaligned.add_liqiudity(-200100, -199895, 5),
        Err(CLMMError::UnalignedTick)
    );

    let mut far = good;
    far.uppertick.index = 221820;
    assert_eq!(
        far.add_liqiudity(-200100, 221820, 5),
        Err(CLMMError::TickOutOfRange)
    );

    assert_eq!(
        ctx.add_liqiudity(-200100, -199900, u64::MAX),
        Err(CLMMError::ArithmeticOverflow)
    );

    let mut dry = good;
    dry.vaulta = 0;
    assert_eq!(
        dry.add_liqiudity(-200100, -199900, 1_000_000),
        Err(CLMMError::PoolEmpty)
    );

    let mut drained = good;
    drained.config.active_liquidity = 999_999;
    let before = drained;
    assert_eq!(
        drained.add_liqiudity(-200100, -199900, 1_000_000),
        Err(CLMMError::ArithmeticOverflow)
    );
    assert_eq!(drained, before);

    let mut low = good;
    low.lowertick.liquidity = i128::MIN;
    assert_eq!(
        low.add_liqiudity(-200100, -199900, 1_000_000),
        Err(CLMMError::ArithmeticOverflow)
    );
    assert_eq!(ctx, good);

    assert_eq!(
        ctx.add_liqiudity(-200100, -199900, 1_000_000),
        Ok(Settlement { amount_a: 109797069, amount_b: 0, lp_shares: 0 })
    );
    assert_eq!(ctx.config.active_liquidity, 0);
}

#[test]
fn withdrawal_cannot_burn_more_than_the_supply() {
    let current = 124324258983086206; // tick -100000
    let mut pool = pool_at(current, -100000);
    pool.total_lp_issued = 1000;
    pool.active_liquidity = 200_000;
    let mut ctx = withdrawal_at(pool, -221810, -99990);
    // Reserves below the position's amounts make it worth more shares
    // than were issued.
    ctx.vaulta = 3708;
    ctx.vault_b = 336;
    ctx.user_lp_account = 5000;
    let before = ctx;
    assert_eq!(
        ctx.add_liqiudity(-221810, -99990, 100_000),
        Err(CLMMError::ArithmeticOverflow)
    );
    assert_eq!(ctx, before);
}

#[test]
fn withdrawal_entry_narrows_the_liquidity() {
    let mut pool = pool_at(MIDDLE, -200000);
    pool.total_lp_issued = 10;
    let mut ctx = withdrawal_at(pool, -200100, -199900);
    let before = ctx;
    assert_eq!(
        withdraw_liquidity(&mut ctx, -200100, -199900, u128::MAX),
        Err(CLMMError::AmountTooLarge)
    );
    assert_eq!(ctx, before);
}
