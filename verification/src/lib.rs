//! A banded-liquidity automated market maker core: exact fixed-point decimal
//! arithmetic, price-band boundary computation, liquidation classification,
//! and the ledger state transitions they gate.

pub mod bands;
pub mod constants;
pub mod errors;
pub mod instructions;
pub mod math;
pub mod oracle;
pub mod state;
pub mod text;
