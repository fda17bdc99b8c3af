//! Reward accounting for a share-based staking vault.
//!
//! The ledger replays deposits, withdrawals and transfers in block order
//! through a reward-per-share accumulator, and answers how much an account
//! has earned by a given block.
pub mod amount;
pub mod event;
pub mod model;
pub mod laws;
pub mod sequencer;
pub mod state;

pub use amount::Amount;
pub use event::{Address, Deposit, Event, Transfer, Withdraw};
pub use model::RewardError;
pub use sequencer::sort_events;
pub use state::{Account, GlobalState, ReplayError, UserRecord, BLOCK_CONTRACT_DEPLOYED};
