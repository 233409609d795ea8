use cushion::bands::{band_boundary, classify_band, lower_boundary, upper_boundary, BandStatus};
use cushion::constants::{MINIMUM_LIQUIDITY, STALENESS_THRESHOLD};
use cushion::errors::CushionError;
use cushion::instructions::{
    create_band, create_band_deposit, create_market, deposit_collateral, initialize_llamma,
    quote_to_decimal,
};
use cushion::math::BigNumber;
use cushion::oracle::{check_freshness, read_ema_quote, Quote};
use cushion::state::{AccountId, Band, BandDeposit, Market};
use pyth_sdk_solana::state::{AccountType, PriceStatus, SolanaPriceAccount, MAGIC, VERSION_2};

fn key(tag: u8) -> AccountId {
    AccountId { bytes: [tag; 32] }
}

fn market(amplification: u16, base_price: u64) -> Market {
    Market {
        llamma: key(1),
        collateral_mint: key(2),
        price_feed: key(3),
        amplification,
        base_price,
    }
}

fn quote(price: i64, expo: i32, publish_time: i64) -> Quote {
    Quote {
        price,
        conf: 0,
        expo,
        publish_time,
    }
}

fn price_account(ema_price: i64, ema_conf: i64, expo: i32, timestamp: i64) -> SolanaPriceAccount {
    let mut acc = SolanaPriceAccount::default();
    acc.magic = MAGIC;
    acc.ver = VERSION_2;
    acc.atype = AccountType::Price as u32;
    acc.expo = expo;
    acc.ema_price.val = ema_price;
    acc.ema_conf.val = ema_conf;
    acc.agg.status = PriceStatus::Trading;
    acc.timestamp = timestamp;
    acc
}

#[test]
fn test_read_ema_quote_decodes_pyth_account() {
    let acc = price_account(99000, 12, -4, 1_700_000_000);
    let q = read_ema_quote(bytemuck::bytes_of(&acc)).unwrap();
    assert_eq!(q.price, 99000);
    assert_eq!(q.conf, 12);
    assert_eq!(q.expo, -4);
    assert_eq!(q.publish_time, 1_700_000_000);
}

#[test]
fn test_read_ema_quote_rejects_bad_bytes() {
    // Right size, but the magic number is missing.
    let acc = SolanaPriceAccount::default();
    assert_eq!(
        read_ema_quote(bytemuck::bytes_of(&acc)),
        Err(CushionError::InvalidPriceFeed)
    );
    // Far too short.
    assert_eq!(
        read_ema_quote(&[0u8; 16]),
        Err(CushionError::InvalidPriceFeed)
    );
}

#[test]
fn test_freshness_window() {
    let now = 1_700_000_000;
    assert!(check_freshness(&quote(1, 0, now), now, STALENESS_THRESHOLD).is_ok());
    assert!(check_freshness(&quote(1, 0, now - 86400), now, STALENESS_THRESHOLD).is_ok());
    assert_eq!(
        check_freshness(&quote(1, 0, now - 86401), now, STALENESS_THRESHOLD),
        Err(CushionError::OutdatedPrice)
    );
}

#[test]
fn test_quote_to_decimal() {
    let d = quote_to_decimal(&quote(99000, -4, 0));
    assert_eq!(d, BigNumber::new(99000, 4));
}

#[test]
fn test_boundary_example() {
    // Amplification 100, base price 10.00, unit scale 4:
    // the boundary at index 1 is 10.00 * 0.99, at index 2 is 10.00 * 0.99^2.
    let upper = upper_boundary(4, 100, 1000, 2, 1);
    let lower = lower_boundary(4, 100, 1000, 2, 1);
    assert_eq!(upper.to_string(), "9.9000");
    assert_eq!(lower.to_string(), "9.8010");
    assert!(lower.lt(&upper));
    // The same ladder value through the shared primitive.
    assert_eq!(band_boundary(4, 100, 1000, 2, 2), lower);
}

#[test]
fn test_classify_band_statuses() {
    let upper = BigNumber::new(99000, 4);
    let lower = BigNumber::new(98010, 4);
    assert_eq!(
        classify_band(&BigNumber::new(100000, 4), &upper, &lower),
        BandStatus::Creatable
    );
    assert_eq!(
        classify_band(&BigNumber::new(98500, 4), &upper, &lower),
        BandStatus::Open
    );
    assert_eq!(
        classify_band(&BigNumber::new(90000, 4), &upper, &lower),
        BandStatus::Liquidating
    );
}

#[test]
fn test_initialize_llamma() {
    let l = initialize_llamma(key(7), key(8));
    assert_eq!(l.admin, key(7));
    assert_eq!(l.debt_mint, key(8));
    assert_eq!(l.fee, 0);
    assert_eq!(l.admin_fee, 0);
}

#[test]
fn test_create_market_records_parameters() {
    let now = 1_700_000_000;
    let m = create_market(key(1), key(2), key(3), 100, 1000, &quote(99000, -4, now), now).unwrap();
    assert_eq!(m.llamma, key(1));
    assert_eq!(m.collateral_mint, key(2));
    assert_eq!(m.price_feed, key(3));
    assert_eq!(m.amplification, 100);
    assert_eq!(m.base_price, 1000);
}

#[test]
fn test_create_market_rejects_stale_quote() {
    let now = 1_700_000_000;
    assert_eq!(
        create_market(key(1), key(2), key(3), 100, 1000, &quote(99000, -4, now - 86401), now),
        Err(CushionError::OutdatedPrice)
    );
}

#[test]
fn test_create_band_success() {
    let now = 1_700_000_000;
    let m = market(100, 100000);
    // Oracle at 10.0000, above the upper boundary 9.9000 of band 1.
    let b = create_band(&m, key(4), 1, 6, 4, &quote(100000, -4, now), now).unwrap();
    assert_eq!(b.market, key(4));
    assert_eq!(b.index, 1);
    assert_eq!(b.collateral_amount, MINIMUM_LIQUIDITY);
    // Debt is the oracle value of the minimum liquidity at the collateral's
    // scale: 10.0000 * 0.000100 == 0.001000.
    assert_eq!(b.debt_amount, 1000);
}

#[test]
fn test_create_band_rejects_low_price() {
    let now = 1_700_000_000;
    let m = market(100, 100000);
    // Oracle at 9.8500, below the upper boundary 9.9000 of band 1.
    assert_eq!(
        create_band(&m, key(4), 1, 6, 4, &quote(98500, -4, now), now),
        Err(CushionError::PriceTooLowForCreation)
    );
}

#[test]
fn test_create_band_rejects_stale_quote() {
    let now = 1_700_000_000;
    let m = market(100, 100000);
    assert_eq!(
        create_band(&m, key(4), 1, 6, 4, &quote(100000, -4, now - 90000), now),
        Err(CushionError::OutdatedPrice)
    );
}

#[test]
fn test_create_band_deposit_starts_empty() {
    let d = create_band_deposit(key(4), key(5));
    assert_eq!(d.band, key(4));
    assert_eq!(d.depositor, key(5));
    assert_eq!(d.deposited_amount, 0);
    assert_eq!(d.borrowed_amount, 0);
}

#[test]
fn test_deposit_collateral_success() {
    let now = 1_700_000_000;
    let m = market(100, 100000);
    let band = Band {
        market: key(4),
        index: 1,
        collateral_amount: MINIMUM_LIQUIDITY,
        debt_amount: 1000,
    };
    let mut deposit = create_band_deposit(key(5), key(6));
    // Oracle at 9.9000: above the lower boundary 9.8010 of band 1.
    let r = deposit_collateral(
        &m,
        &band,
        key(5),
        key(6),
        &mut deposit,
        250,
        4,
        &quote(99000, -4, now),
        now,
    );
    assert_eq!(r, Ok(()));
    assert_eq!(deposit.deposited_amount, 250);
    assert_eq!(deposit.borrowed_amount, 0);
    // A second deposit accumulates.
    let r = deposit_collateral(
        &m,
        &band,
        key(5),
        key(6),
        &mut deposit,
        50,
        4,
        &quote(99000, -4, now),
        now,
    );
    assert_eq!(r, Ok(()));
    assert_eq!(deposit.deposited_amount, 300);
}

#[test]
fn test_deposit_collateral_rejects_liquidating_band() {
    let now = 1_700_000_000;
    let m = market(100, 100000);
    let band = Band {
        market: key(4),
        index: 1,
        collateral_amount: MINIMUM_LIQUIDITY,
        debt_amount: 1000,
    };
    let mut deposit = BandDeposit {
        band: key(5),
        depositor: key(6),
        deposited_amount: 111,
        borrowed_amount: 22,
    };
    // Oracle at 9.0000: below the lower boundary 9.8010 of band 1.
    let r = deposit_collateral(
        &m,
        &band,
        key(5),
        key(6),
        &mut deposit,
        250,
        4,
        &quote(90000, -4, now),
        now,
    );
    assert_eq!(r, Err(CushionError::LiquidatingBand));
    // The ledger is untouched.
    assert_eq!(deposit.deposited_amount, 111);
    assert_eq!(deposit.borrowed_amount, 22);
}

#[test]
fn test_deposit_collateral_rejects_stale_quote() {
    let now = 1_700_000_000;
    let m = market(100, 100000);
    let band = Band {
        market: key(4),
        index: 1,
        collateral_amount: MINIMUM_LIQUIDITY,
        debt_amount: 1000,
    };
    let mut deposit = BandDeposit {
        band: key(5),
        depositor: key(6),
        deposited_amount: 111,
        borrowed_amount: 22,
    };
    let r = deposit_collateral(
        &m,
        &band,
        key(5),
        key(6),
        &mut deposit,
        250,
        4,
        &quote(99000, -4, now - 86401),
        now,
    );
    assert_eq!(r, Err(CushionError::OutdatedPrice));
    assert_eq!(deposit.deposited_amount, 111);
    assert_eq!(deposit.borrowed_amount, 22);
}

#[test]
fn test_full_flow_through_pyth_bytes() {
    let now = 1_700_000_000;
    let m = market(100, 100000);
    let acc = price_account(100000, 5, -4, now - 3600);
    let q = read_ema_quote(bytemuck::bytes_of(&acc)).unwrap();
    assert!(check_freshness(&q, now, STALENESS_THRESHOLD).is_ok());
    let b = create_band(&m, key(4), 1, 6, 4, &q, now).unwrap();
    assert_eq!(b.collateral_amount, MINIMUM_LIQUIDITY);
    assert_eq!(b.debt_amount, 1000);
}
