use vstd::prelude::*;

verus! {

/// Staleness threshold in seconds for the oracle: a quote whose publish time
/// differs from the current time by more than this is rejected.
pub const STALENESS_THRESHOLD: u64 = 86400;

/// The minimum amount of liquidity locked when a band is created.
pub const MINIMUM_LIQUIDITY: u64 = 100;

} // verus!
