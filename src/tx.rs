use vstd::prelude::*;

verus! {

/// A ledger operation that took effect.
#[derive(Clone, Debug, PartialEq, Eq)]
pub enum Tx {
    /// `amount` was added to `account`
    Deposit { account: String, amount: u64 },
    /// `amount` was taken from `account`
    Withdraw { account: String, amount: u64 },
}

} // verus!
