use vstd::prelude::*;

verus! {

use crate::errors::CushionError;

/// A raw oracle quote: the exponentially-smoothed price read from a
/// decoded feed, before any freshness check. The price denotes
/// `price * 10^expo`.
#[derive(PartialEq, Eq, Structural, Debug, Clone, Copy)]
pub struct Quote {
    pub price: i64,
    pub conf: u64,
    pub expo: i32,
    pub publish_time: i64,
}

#[verifier::external_type_specification]
#[verifier::external_body]
#[verifier::reject_recursive_types(T)]
pub struct ExGenericPriceAccount<const N: usize, T: Default + Copy>(
    pyth_sdk_solana::state::GenericPriceAccount<N, T>,
);

/// Relies on pyth_sdk_solana::state::load_price_account: decodes a Pyth
/// price account from raw account bytes, failing unless the length
/// suffices and the magic number, version and account type all match.
/// The alignment test keeps the byte-level cast inside from panicking on
/// a misaligned buffer.
#[verifier::external_body]
fn decode_price_account(data: &[u8]) -> (r: Option<&pyth_sdk_solana::state::SolanaPriceAccount>) {
    let align = core::mem::align_of::<pyth_sdk_solana::state::SolanaPriceAccount>();
    if data.as_ptr().align_offset(align) != 0 {
        return None;
    }
    pyth_sdk_solana::state::load_price_account::<32, ()>(data).ok()
}

/// Relies on GenericPriceAccount::get_publish_time and the public fields
/// from which PriceFeed's smoothed price is assembled: the EMA price and
/// confidence values with the account's exponent.
#[verifier::external_body]
fn ema_quote_of_account(acc: &pyth_sdk_solana::state::SolanaPriceAccount) -> (r: Quote) {
    Quote {
        price: acc.ema_price.val,
        conf: acc.ema_conf.val as u64,
        expo: acc.expo,
        publish_time: acc.get_publish_time(),
    }
}

/// Read the exponentially-smoothed quote out of raw price-feed account
/// bytes. Fails with `InvalidPriceFeed` exactly when the bytes do not
/// decode as a price account.
pub fn read_ema_quote(data: &[u8]) -> (r: Result<Quote, CushionError>)
    ensures
        r is Err ==> r == Err::<Quote, CushionError>(CushionError::InvalidPriceFeed),
{
    match decode_price_account(data) {
        Some(acc) => Ok(ema_quote_of_account(acc)),
        None => Err(CushionError::InvalidPriceFeed),
    }
}

/// Whether a quote is fresh: its publish time lies within `threshold`
/// seconds of `now`, in either direction.
pub open spec fn quote_is_fresh(q: Quote, now: i64, threshold: u64) -> bool {
    &&& q.publish_time - now <= threshold as int
    &&& now - q.publish_time <= threshold as int
}

/// Check a quote against a staleness threshold: `OutdatedPrice` exactly
/// when the quote's publish time is more than `threshold` seconds away
/// from `now`.
pub fn check_freshness(q: &Quote, now: i64, threshold: u64) -> (r: Result<(), CushionError>)
    ensures
        r is Ok <==> quote_is_fresh(*q, now, threshold),
        r is Err ==> r == Err::<(), CushionError>(CushionError::OutdatedPrice),
{
    let diff: i128 = (q.publish_time as i128) - (now as i128);
    let limit: i128 = threshold as i128;
    if - limit <= diff && diff <= limit {
        Ok(())
    } else {
        Err(CushionError::OutdatedPrice)
    }
}

} // verus!
