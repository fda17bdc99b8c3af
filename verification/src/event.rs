//! The stake-changing events that the ledger replays.
use crate::amount::Amount;
use vstd::prelude::*;

verus! {

/// A 20-byte account identifier, read as a big-endian integer: `hi` holds its
/// first four bytes and `lo` the sixteen that follow.
#[derive(Clone, Copy, Debug, PartialEq, Eq, Structural)]
pub struct Address {
    pub hi: u32,
    pub lo: u128,
}

impl Address {
    /// Whether `self` comes before `other` when both are read as integers.
    pub open spec fn precedes(self, other: Address) -> bool {
        self.hi < other.hi || (self.hi == other.hi && self.lo < other.lo)
    }

    /// Whether `self` comes before `other` when both are read as integers.
    pub fn is_before(&self, other: &Address) -> (r: bool)
        ensures
            r == self.precedes(*other),
    {
        self.hi < other.hi || (self.hi == other.hi && self.lo < other.lo)
    }
}

/// Shares enter the vault for `address`.
#[derive(Clone, Copy, Debug, PartialEq, Eq)]
pub struct Deposit {
    pub address: Address,
    pub shares: Amount,
    pub block_number: u64,
}

/// Shares leave the vault for `address`.
#[derive(Clone, Copy, Debug, PartialEq, Eq)]
pub struct Withdraw {
    pub address: Address,
    pub shares: Amount,
    pub block_number: u64,
}

/// Shares move from one account to another inside the vault.
#[derive(Clone, Copy, Debug, PartialEq, Eq)]
pub struct Transfer {
    pub from: Address,
    pub to: Address,
    pub shares: Amount,
    pub block_number: u64,
}

/// One entry of the vault's history.
#[derive(Clone, Copy, Debug, PartialEq, Eq)]
pub enum Event {
    Deposit(Deposit),
    Withdrawal(Withdraw),
    Transfer(Transfer),
}

impl Event {
    /// The block in which the event took place.
    pub open spec fn block(self) -> u64 {
        match self {
            Event::Deposit(e) => e.block_number,
            Event::Withdrawal(e) => e.block_number,
            Event::Transfer(e) => e.block_number,
        }
    }

    /// The block in which the event took place.
    pub fn block_number(&self) -> (r: u64)
        ensures
            r == self.block(),
    {
        match self {
            Event::Deposit(e) => e.block_number,
            Event::Withdrawal(e) => e.block_number,
            Event::Transfer(e) => e.block_number,
        }
    }
}

} // verus!
