use vstd::prelude::*;

verus! {

/// Failures of the fixed-point decimal arithmetic itself.
#[derive(PartialEq, Eq, Structural, Debug, Clone, Copy)]
pub enum MathError {
    /// Two operands were combined whose scales cannot be reconciled.
    ExponentsDontMatch,
    /// A decimal text could not be read as a number.
    NumberParsingFailed,
}

/// Failures of the market operations.
#[derive(PartialEq, Eq, Structural, Debug, Clone, Copy)]
pub enum CushionError {
    /// The caller is not the configured admin.
    NotAdmin,
    /// The oracle quote is older than the staleness threshold allows.
    OutdatedPrice,
    /// The price feed bytes could not be decoded.
    InvalidPriceFeed,
    /// The band is being liquidated; deposits are rejected.
    LiquidatingBand,
    /// The oracle price is below the band's upper boundary, so the band
    /// may not be created.
    PriceTooLowForCreation,
}

} // verus!
