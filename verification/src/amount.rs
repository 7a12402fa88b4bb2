//! The fixed-point monetary amount: a non-negative value scaled by 10,000.

use vstd::prelude::*;

use crate::decimal::{amount_text, parses, str_to_u64, text_value, u64_to_string};
use crate::types::LedgerError;

verus! {

/// A monetary amount with four decimal digits, stored scaled by 10,000.
#[derive(Debug, Copy, Clone, PartialEq, Eq, Structural)]
pub struct Amount(pub u64);

/// What checked addition returns: the exact sum when it fits, else overflow.
pub open spec fn spec_checked_add(a: Amount, b: Amount) -> Result<Amount, LedgerError> {
    if a.0 + b.0 <= u64::MAX {
        Ok(Amount((a.0 + b.0) as u64))
    } else {
        Err(LedgerError::Overflow)
    }
}

/// What checked subtraction returns: the exact difference when it is
/// non-negative, else underflow.
pub open spec fn spec_checked_sub(a: Amount, b: Amount) -> Result<Amount, LedgerError> {
    if a.0 >= b.0 {
        Ok(Amount((a.0 - b.0) as u64))
    } else {
        Err(LedgerError::Underflow)
    }
}

impl Amount {
    /// Adds two amounts; fails with `Overflow` instead of wrapping.
    pub fn checked_add(self, other: Amount) -> (r: Result<Amount, LedgerError>)
        ensures
            r == spec_checked_add(self, other),
    {
        match self.0.checked_add(other.0) {
            Some(v) => Ok(Amount(v)),
            None => Err(LedgerError::Overflow),
        }
    }

    /// Subtracts an amount; fails with `Underflow` instead of wrapping.
    pub fn checked_sub(self, other: Amount) -> (r: Result<Amount, LedgerError>)
        ensures
            r == spec_checked_sub(self, other),
    {
        match self.0.checked_sub(other.0) {
            Some(v) => Ok(Amount(v)),
            None => Err(LedgerError::Underflow),
        }
    }

    /// Parses decimal text with at most four fractional digits into an
    /// amount; anything else is a malformed amount.
    pub fn parse(input: &str) -> (r: Result<Amount, LedgerError>)
        ensures
            match r {
                Ok(a) => parses(input@) && a.0 == text_value(input@),
                Err(e) => e == LedgerError::MalformedAmount && !parses(input@),
            },
    {
        match str_to_u64(input) {
            Ok(v) => Ok(Amount(v)),
            Err(e) => Err(e),
        }
    }

    /// Renders the amount with exactly four, zero-padded, fractional digits.
    pub fn to_string(&self) -> (r: String)
        ensures
            r@ == amount_text(self.0),
    {
        u64_to_string(self.0)
    }
}

impl Default for Amount {
    /// The zero amount.
    fn default() -> (r: Amount)
        ensures
            r.0 == 0,
    {
        Amount(0)
    }
}

impl core::str::FromStr for Amount {
    type Err = LedgerError;

    fn from_str(input: &str) -> Result<Amount, LedgerError> {
        Amount::parse(input)
    }
}

/// A checked operation that succeeds stays within the representable range:
/// neither operation ever wraps below zero or beyond the backing width.
pub proof fn lemma_checked_ops_stay_in_range(a: Amount, b: Amount)
    ensures
        spec_checked_add(a, b) is Ok ==> 0 <= spec_checked_add(a, b)->Ok_0.0 <= u64::MAX,
        spec_checked_sub(a, b) is Ok ==> 0 <= spec_checked_sub(a, b)->Ok_0.0 <= u64::MAX,
{
}

/// Adding an amount and then subtracting it again is the identity whenever
/// the addition does not overflow.
pub proof fn lemma_add_sub_round_trip(a: Amount, b: Amount)
    requires
        spec_checked_add(a, b) is Ok,
    ensures
        spec_checked_sub(spec_checked_add(a, b)->Ok_0, b) == Ok::<Amount, LedgerError>(a),
{
}

} // verus!
