//! A per-client ledger of financial events.
//!
//! Events (deposits, withdrawals, disputes, resolutions, chargebacks) arrive
//! in order and are folded into a balance snapshot per client.  Monetary
//! amounts are fixed-point values scaled to four decimal digits; every
//! arithmetic step is checked, and every transition of the ledger state
//! machine is specified and verified.

pub mod amount;
pub mod decimal;
pub mod engine;
pub mod types;

pub use decimal::{str_to_u64, u64_to_string};
