use vstd::prelude::*;

verus! {

/// Why a ledger operation was refused.
#[derive(Debug, PartialEq, Eq, PartialOrd, Ord)]
pub enum AccountingError {
    /// No account with this name exists
    AccountNotFound(String),
    /// The account holds less than the amount asked for
    AccountUnderFunded(String, u64),
    /// The deposit would take the balance past the largest `u64`
    AccountOverFunded(String, u64),
}

} // verus!
