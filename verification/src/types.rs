//! Identifiers and the error type shared by the whole crate.

use vstd::prelude::*;

verus! {

/// Identifies a deposit transaction; dispute-workflow events refer back to one.
pub type TxId = u32;

/// Identifies a client, and thereby one ledger.
pub type ClientId = u16;

/// The fatal errors: any of them aborts the processing of the event stream.
///
/// Inconsistencies of the upstream feed (a dispute of an unknown transaction,
/// a withdrawal without funds, a duplicated deposit id) are not errors; the
/// ledger ignores such events and processing continues.
#[derive(Debug, Clone, Copy, PartialEq, Eq, Structural)]
pub enum LedgerError {
    /// An amount field does not parse as a non-negative decimal number with
    /// at most four fractional digits, or its scaled value does not fit.
    MalformedAmount,
    /// A deposit or withdrawal arrived without an amount field.
    MissingAmount,
    /// A checked addition exceeded the backing integer width.
    Overflow,
    /// A checked subtraction would drop below zero.
    Underflow,
}

} // verus!
