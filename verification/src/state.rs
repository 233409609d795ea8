use vstd::prelude::*;

verus! {

/// A 32-byte account address, as the host's storage layer issues them.
/// The core only records and hands back addresses; it never computes
/// with them.
#[derive(PartialEq, Eq, Debug, Clone, Copy)]
pub struct AccountId {
    pub bytes: [u8; 32],
}

/// The protocol-level record of the market maker: its admin and the mint
/// of the debt token that quotes every market.
#[derive(PartialEq, Eq, Debug, Clone, Copy)]
pub struct Llamma {
    /// The admin that can create markets and receives fees.
    pub admin: AccountId,
    /// The mint of the token used for loans; the quote for all markets.
    pub debt_mint: AccountId,
    pub fee: u64,
    pub admin_fee: u64,
}

/// A market: one collateral asset priced by one feed, with the base price
/// and the amplification factor that govern its band geometry.
#[derive(PartialEq, Eq, Debug, Clone, Copy)]
pub struct Market {
    pub llamma: AccountId,
    pub collateral_mint: AccountId,
    pub price_feed: AccountId,
    /// Amplification factor; at least 2.
    pub amplification: u16,
    /// Base price magnitude, scaled by the debt asset's decimals.
    pub base_price: u64,
}

/// A liquidity band: a discrete price interval of a market, identified by
/// a signed index that grows as price falls, holding the pooled collateral
/// and debt of its positions.
#[derive(PartialEq, Eq, Debug, Clone, Copy)]
pub struct Band {
    pub market: AccountId,
    pub index: i16,
    pub collateral_amount: u64,
    pub debt_amount: u64,
}

/// A depositor's cumulative position within one band.
#[derive(PartialEq, Eq, Debug, Clone, Copy)]
pub struct BandDeposit {
    pub band: AccountId,
    pub depositor: AccountId,
    pub deposited_amount: u64,
    pub borrowed_amount: u64,
}

} // verus!
