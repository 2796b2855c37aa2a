use clmm::error::CLMMError;
use clmm::shares::{lp_shares_pro_rata, lp_shares_to_mint};

#[test]
fn first_deposit_mints_the_geometric_mean() {
    assert_eq!(lp_shares_to_mint(100, 400, 0, 0, 0), Ok(200));
    assert_eq!(lp_shares_to_mint(7416, 672, 0, 0, 0), Ok(2232));
    assert_eq!(lp_shares_to_mint(1, 1, 0, 0, 0), Ok(1));
    assert_eq!(lp_shares_to_mint(2, 1, 0, 0, 0), Ok(1));
}

#[test]
fn first_deposit_ignores_the_reserves() {
    assert_eq!(lp_shares_to_mint(100, 400, 0, 5, 9), Ok(200));
}

#[test]
fn second_deposit_doubling_reserves_mints_prior_total() {
    let first = lp_shares_to_mint(100, 400, 0, 0, 0).unwrap();
    assert_eq!(first, 200);
    assert_eq!(lp_shares_to_mint(100, 400, first, 100, 400), Ok(first));
    assert_eq!(lp_shares_to_mint(5, 3, 777, 5, 3), Ok(777));
}

#[test]
fn first_deposit_of_one_asset_mints_its_amount() {
    assert_eq!(lp_shares_to_mint(109797069, 0, 0, 0, 0), Ok(109797069));
    assert_eq!(lp_shares_to_mint(0, 672, 0, 0, 0), Ok(672));
    assert_eq!(lp_shares_to_mint(0, 0, 0, 0, 0), Ok(0));
}

#[test]
fn first_deposit_product_is_held_to_64_bits() {
    assert_eq!(
        lp_shares_to_mint(1 << 32, 1 << 32, 0, 0, 0),
        Err(CLMMError::ArithmeticOverflow)
    );
    assert_eq!(
        lp_shares_to_mint((1 << 32) - 1, (1 << 32) + 1, 0, 0, 0),
        Ok(4294967295)
    );
}

#[test]
fn later_deposit_mints_the_smaller_side() {
    assert_eq!(lp_shares_pro_rata(7416, 672, 1000, 7416, 672), Ok(1000));
    assert_eq!(lp_shares_pro_rata(7416, 672, 1000, 14832, 2688), Ok(250));
    assert_eq!(lp_shares_pro_rata(7416, 672, 1000, 22248, 1344), Ok(333));
    assert_eq!(lp_shares_pro_rata(5, 7, 10, 2, 3), Ok(23));
    assert_eq!(lp_shares_to_mint(5, 7, 10, 2, 3), Ok(23));
}

#[test]
fn side_without_reserve_is_worth_nothing() {
    assert_eq!(lp_shares_pro_rata(5, 7, 10, 0, 3), Ok(0));
    assert_eq!(lp_shares_pro_rata(5, 7, 10, 2, 0), Ok(0));
}

#[test]
fn pool_without_reserves_is_refused() {
    assert_eq!(lp_shares_pro_rata(5, 7, 10, 0, 0), Err(CLMMError::PoolEmpty));
    assert_eq!(lp_shares_to_mint(5, 7, 10, 0, 0), Err(CLMMError::PoolEmpty));
    assert_eq!(
        lp_shares_pro_rata(u64::MAX, u64::MAX, u64::MAX, 0, 0),
        Err(CLMMError::PoolEmpty)
    );
}

#[test]
fn shares_beyond_64_bits_are_refused() {
    assert_eq!(
        lp_shares_pro_rata(u64::MAX, u64::MAX, u64::MAX, 1, 1),
        Err(CLMMError::AmountTooLarge)
    );
    assert_eq!(
        lp_shares_pro_rata(u64::MAX, 3, u64::MAX, 1, u64::MAX),
        Ok(3)
    );
}
