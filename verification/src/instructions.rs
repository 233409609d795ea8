use vstd::prelude::*;

verus! {

use crate::bands::{upper_boundary, lower_boundary, spec_boundary, boundary_in_range};
use crate::constants::{MINIMUM_LIQUIDITY, STALENESS_THRESHOLD};
use crate::errors::CushionError;
use crate::math::{BigNumber, spec_mul, mul_in_range, cmp_in_range, spec_lt, abs_exp};
use crate::oracle::{Quote, quote_is_fresh, check_freshness};
use crate::state::{AccountId, Band, BandDeposit, Llamma, Market};

/// Set up the protocol record: the admin and the debt mint, with no fees
/// accrued yet.
pub fn initialize_llamma(admin: AccountId, debt_mint: AccountId) -> (r: Llamma)
    ensures
        r == (Llamma { admin, debt_mint, fee: 0, admin_fee: 0 }),
{
    Llamma { admin, debt_mint, fee: 0, admin_fee: 0 }
}

/// The decimal a quote denotes: the price as the magnitude, the
/// exponent's absolute value as the scale.
pub open spec fn quote_decimal(q: Quote) -> BigNumber {
    BigNumber { value: q.price as u64, exp: abs_exp(q.expo as int) as u8 }
}

/// Whether a quote can be carried as a decimal: a non-negative price and
/// an exponent whose magnitude fits the scale byte.
pub open spec fn quote_representable(q: Quote) -> bool {
    &&& 0 <= q.price
    &&& abs_exp(q.expo as int) <= 255
}

/// The decimal value of a quote's price.
pub fn quote_to_decimal(q: &Quote) -> (r: BigNumber)
    requires
        quote_representable(*q),
    ensures
        r == quote_decimal(*q),
{
    let e: i32 = if q.expo >= 0 {
        q.expo
    } else {
        - q.expo
    };
    BigNumber::new(q.price as u64, e as u8)
}

/// The upper boundary of band `n` in a market, priced at the scale of the
/// given quote's exponent; the band's lower boundary is the same value at
/// index `n + 1`.
pub open spec fn market_boundary(market: Market, debt_decimals: u8, quote: Quote, n: int) -> BigNumber {
    spec_boundary(
        debt_decimals,
        market.amplification as u64,
        market.base_price,
        abs_exp(quote.expo as int) as u8,
        n,
    )
}

/// Record a new market for a collateral asset after checking that its
/// price feed serves a fresh quote. No price-level check is made: no
/// funds move yet.
pub fn create_market(
    llamma: AccountId,
    collateral_mint: AccountId,
    price_feed: AccountId,
    amplification: u16,
    base_price: u64,
    quote: &Quote,
    now: i64,
) -> (r: Result<Market, CushionError>)
    requires
        amplification >= 2,
    ensures
        quote_is_fresh(*quote, now, STALENESS_THRESHOLD) ==> r == Ok::<Market, CushionError>(
            Market { llamma, collateral_mint, price_feed, amplification, base_price },
        ),
        !quote_is_fresh(*quote, now, STALENESS_THRESHOLD) ==> r == Err::<Market, CushionError>(
            CushionError::OutdatedPrice,
        ),
{
    match check_freshness(quote, now, STALENESS_THRESHOLD) {
        Ok(()) => Ok(Market { llamma, collateral_mint, price_feed, amplification, base_price }),
        Err(e) => Err(e),
    }
}

/// Create band `index` of a market: requires a fresh quote; rejects with
/// `PriceTooLowForCreation` while the oracle price is below the band's
/// upper boundary; on success the band opens holding the minimum
/// liquidity as collateral, valued at the oracle price as debt.
pub fn create_band(
    market: &Market,
    market_key: AccountId,
    index: i16,
    collateral_decimals: u8,
    debt_decimals: u8,
    quote: &Quote,
    now: i64,
) -> (r: Result<Band, CushionError>)
    requires
        market.amplification >= 2,
        index != i16::MIN,
        quote_representable(*quote),
        mul_in_range(
            quote_decimal(*quote),
            BigNumber { value: MINIMUM_LIQUIDITY, exp: collateral_decimals },
        ),
        boundary_in_range(
            debt_decimals,
            market.amplification as u64,
            market.base_price,
            abs_exp(quote.expo as int) as u8,
            index as int,
        ),
        cmp_in_range(quote_decimal(*quote), market_boundary(*market, debt_decimals, *quote, index as int)),
    ensures
        !quote_is_fresh(*quote, now, STALENESS_THRESHOLD) ==> r == Err::<Band, CushionError>(
            CushionError::OutdatedPrice,
        ),
        quote_is_fresh(*quote, now, STALENESS_THRESHOLD) && spec_lt(
            quote_decimal(*quote),
            market_boundary(*market, debt_decimals, *quote, index as int),
        ) ==> r == Err::<Band, CushionError>(CushionError::PriceTooLowForCreation),
        quote_is_fresh(*quote, now, STALENESS_THRESHOLD) && !spec_lt(
            quote_decimal(*quote),
            market_boundary(*market, debt_decimals, *quote, index as int),
        ) ==> r == Ok::<Band, CushionError>(
            Band {
                market: market_key,
                index,
                collateral_amount: MINIMUM_LIQUIDITY,
                debt_amount: spec_mul(
                    quote_decimal(*quote),
                    BigNumber { value: MINIMUM_LIQUIDITY, exp: collateral_decimals },
                ).value,
            },
        ),
{
    match check_freshness(quote, now, STALENESS_THRESHOLD) {
        Ok(()) => {
        },
        Err(e) => {
            return Err(e);
        },
    }
    let oracle = quote_to_decimal(quote);
    let collateral_value = oracle.mul(&BigNumber::new(MINIMUM_LIQUIDITY, collateral_decimals));
    let upper = upper_boundary(
        debt_decimals,
        market.amplification as u64,
        market.base_price,
        oracle.exp,
        index,
    );
    if oracle.lt(&upper) {
        return Err(CushionError::PriceTooLowForCreation);
    }
    Ok(
        Band {
            market: market_key,
            index,
            collateral_amount: MINIMUM_LIQUIDITY,
            debt_amount: collateral_value.value,
        },
    )
}

/// Open an empty deposit record for a depositor within a band.
pub fn create_band_deposit(band_key: AccountId, depositor: AccountId) -> (r: BandDeposit)
    ensures
        r == (BandDeposit { band: band_key, depositor, deposited_amount: 0, borrowed_amount: 0 }),
{
    BandDeposit { band: band_key, depositor, deposited_amount: 0, borrowed_amount: 0 }
}

/// Deposit collateral into a band: requires a fresh quote; rejects with
/// `LiquidatingBand` while the oracle price is below the band's lower
/// boundary; on success the amount is recorded additively against the
/// depositor's position, and nothing is recorded on failure.
pub fn deposit_collateral(
    market: &Market,
    band: &Band,
    band_key: AccountId,
    depositor: AccountId,
    deposit: &mut BandDeposit,
    amount: u64,
    debt_decimals: u8,
    quote: &Quote,
    now: i64,
) -> (r: Result<(), CushionError>)
    requires
        market.amplification >= 2,
        band.index < i16::MAX,
        quote_representable(*quote),
        boundary_in_range(
            debt_decimals,
            market.amplification as u64,
            market.base_price,
            abs_exp(quote.expo as int) as u8,
            band.index + 1,
        ),
        cmp_in_range(
            quote_decimal(*quote),
            market_boundary(*market, debt_decimals, *quote, band.index + 1),
        ),
        old(deposit).deposited_amount + amount <= u64::MAX,
    ensures
        !quote_is_fresh(*quote, now, STALENESS_THRESHOLD) ==> r == Err::<(), CushionError>(
            CushionError::OutdatedPrice,
        ) && *final(deposit) == *old(deposit),
        quote_is_fresh(*quote, now, STALENESS_THRESHOLD) && spec_lt(
            quote_decimal(*quote),
            market_boundary(*market, debt_decimals, *quote, band.index + 1),
        ) ==> r == Err::<(), CushionError>(CushionError::LiquidatingBand) && *final(deposit) == *old(deposit),
        quote_is_fresh(*quote, now, STALENESS_THRESHOLD) && !spec_lt(
            quote_decimal(*quote),
            market_boundary(*market, debt_decimals, *quote, band.index + 1),
        ) ==> r == Ok::<(), CushionError>(()) && *final(deposit) == (BandDeposit {
            band: band_key,
            depositor,
            deposited_amount: (old(deposit).deposited_amount + amount) as u64,
            borrowed_amount: old(deposit).borrowed_amount,
        }),
{
    match check_freshness(quote, now, STALENESS_THRESHOLD) {
        Ok(()) => {
        },
        Err(e) => {
            return Err(e);
        },
    }
    let oracle = quote_to_decimal(quote);
    let lower = lower_boundary(
        debt_decimals,
        market.amplification as u64,
        market.base_price,
        oracle.exp,
        band.index,
    );
    if oracle.lt(&lower) {
        return Err(CushionError::LiquidatingBand);
    }
    deposit.band = band_key;
    deposit.depositor = depositor;
    deposit.deposited_amount = deposit.deposited_amount + amount;
    Ok(())
}

} // verus!
