//! The mathematical model of the ledger: its state as plain values, and each
//! operation as a function from state to state.
use crate::amount::{limit, wei_per_ether};
use crate::event::{Address, Event};
use vstd::prelude::*;

verus! {

/// Why an event or a query was refused.
#[derive(Clone, Copy, Debug, PartialEq, Eq, Structural)]
pub enum RewardError {
    /// The event's block lies before the block that rewards are accounted to.
    OutOfOrder,
    /// A withdrawal names an account that never deposited.
    UnknownAccount,
    /// A withdrawal takes more shares than the account holds.
    InsufficientStake,
    /// A query asks for a block before the one that rewards are accounted to.
    EarlyEvaluation,
    /// A quantity does not fit in 256 bits.
    Overflow,
}

/// What the ledger holds for one account.
pub struct RecordView {
    pub shares: nat,
    pub snapshot: nat,
    pub accumulated: nat,
}

/// An account and its record.
pub struct AccountView {
    pub address: Address,
    pub record: RecordView,
}

/// The whole ledger. `accounts` lists the accounts in the order of their first
/// deposit.
pub struct LedgerView {
    pub accounts: Seq<AccountView>,
    pub total_shares: nat,
    pub rewards_per_share: nat,
    pub last_block: nat,
}

/// The ledger of a vault deployed in block `deployed`, before any event.
pub open spec fn empty_ledger(deployed: nat) -> LedgerView {
    LedgerView {
        accounts: Seq::empty(),
        total_shares: 0,
        rewards_per_share: 0,
        last_block: deployed,
    }
}

/// Whether every event is a deposit for an account that no earlier event
/// names.
pub open spec fn first_deposits(events: Seq<Event>) -> bool {
    &&& forall|k: int| 0 <= k < events.len() ==> (#[trigger] events[k]) is Deposit
    &&& forall|j: int, k: int|
        0 <= j < k < events.len() ==> (#[trigger] events[j])->Deposit_0.address != (
        #[trigger] events[k])->Deposit_0.address
}

/// The reward issued for each block, in base units.
pub open spec fn reward_per_block() -> nat {
    wei_per_ether()
}

/// The scale of the reward-per-share accumulator.
pub open spec fn precision() -> nat {
    wei_per_ether()
}

/// Whether `address` has a record.
pub open spec fn has_account(accounts: Seq<AccountView>, address: Address) -> bool {
    exists|i: int| 0 <= i < accounts.len() && (#[trigger] accounts[i]).address == address
}

/// Where the record of `address` stands, if it has one.
pub open spec fn index_of(accounts: Seq<AccountView>, address: Address) -> int {
    choose|i: int| 0 <= i < accounts.len() && (#[trigger] accounts[i]).address == address
}

/// The record of `address`, if it has one.
pub open spec fn record_of(accounts: Seq<AccountView>, address: Address) -> RecordView {
    accounts[index_of(accounts, address)].record
}

/// No address has two records.
pub open spec fn distinct(accounts: Seq<AccountView>) -> bool {
    forall|i: int, j: int|
        0 <= i < j < accounts.len() ==> (#[trigger] accounts[i]).address != (
        #[trigger] accounts[j]).address
}

/// The sum of the shares of all records.
pub open spec fn staked_sum(accounts: Seq<AccountView>) -> nat
    decreases accounts.len(),
{
    if accounts.len() == 0 {
        0
    } else {
        staked_sum(accounts.drop_last()) + accounts.last().record.shares
    }
}

/// The ledger's invariant: no address has two records, the total is the sum
/// of the records' shares, and no snapshot is ahead of the accumulator.
pub open spec fn ledger_wf(s: LedgerView) -> bool {
    &&& distinct(s.accounts)
    &&& s.total_shares == staked_sum(s.accounts)
    &&& forall|i: int|
        0 <= i < s.accounts.len() ==> (#[trigger] s.accounts[i]).record.snapshot
            <= s.rewards_per_share
}

/// What all records are owed together once the accumulator stands at
/// `rewards_per_share`. Scaled by `precision()`.
pub open spec fn owed_sum(accounts: Seq<AccountView>, rewards_per_share: nat) -> nat
    decreases accounts.len(),
{
    if accounts.len() == 0 {
        0
    } else {
        owed_sum(accounts.drop_last(), rewards_per_share) + settled(
            accounts.last().record,
            rewards_per_share,
        )
    }
}

/// Whether the ledger owes its records no more than what the blocks from
/// `deployed` to the accounted block have issued.
pub open spec fn within_issue(s: LedgerView, deployed: nat) -> bool {
    &&& deployed <= s.last_block
    &&& owed_sum(s.accounts, s.rewards_per_share) <= (s.last_block - deployed)
        * reward_per_block() * precision()
}

/// The reward per share, scaled by `precision()`, that the blocks from
/// `s.last_block` to `block` issue to a nonzero total stake.
pub open spec fn issued_per_share(s: LedgerView, block: nat) -> nat {
    if s.total_shares == 0 {
        0
    } else {
        ((block - s.last_block) as nat * reward_per_block() * precision()) / s.total_shares
    }
}

/// The ledger with its accumulator brought up to `block`. Nothing changes
/// where `block` is not ahead or where nothing is staked.
pub open spec fn advance(s: LedgerView, block: nat) -> Result<LedgerView, RewardError> {
    if block <= s.last_block || s.total_shares == 0 {
        Ok(s)
    } else if s.rewards_per_share + issued_per_share(s, block) >= limit() {
        Err(RewardError::Overflow)
    } else {
        Ok(
            LedgerView {
                rewards_per_share: s.rewards_per_share + issued_per_share(s, block),
                last_block: block,
                ..s
            },
        )
    }
}

/// What a record is owed once the accumulator stands at `rewards_per_share`:
/// what was settled before, and what its shares earned since its snapshot.
/// Scaled by `precision()`.
pub open spec fn settled(r: RecordView, rewards_per_share: nat) -> nat {
    r.accumulated + (rewards_per_share - r.snapshot) as nat * r.shares
}

/// The ledger after a deposit of `shares` for `address` in `block`.
pub open spec fn deposit(s: LedgerView, address: Address, shares: nat, block: nat) -> Result<
    LedgerView,
    RewardError,
> {
    if block < s.last_block {
        Err(RewardError::OutOfOrder)
    } else {
        match advance(s, block) {
            Err(e) => Err(e),
            Ok(t) => {
                if t.total_shares + shares >= limit() {
                    Err(RewardError::Overflow)
                } else if has_account(t.accounts, address) {
                    let i = index_of(t.accounts, address);
                    let r = t.accounts[i].record;
                    if settled(r, t.rewards_per_share) >= limit() {
                        Err(RewardError::Overflow)
                    } else {
                        Ok(
                            LedgerView {
                                accounts: t.accounts.update(
                                    i,
                                    AccountView {
                                        address,
                                        record: RecordView {
                                            shares: r.shares + shares,
                                            snapshot: t.rewards_per_share,
                                            accumulated: settled(r, t.rewards_per_share),
                                        },
                                    },
                                ),
                                total_shares: t.total_shares + shares,
                                ..t
                            },
                        )
                    }
                } else {
                    Ok(
                        LedgerView {
                            accounts: t.accounts.push(
                                AccountView {
                                    address,
                                    record: RecordView {
                                        shares,
                                        snapshot: t.rewards_per_share,
                                        accumulated: 0,
                                    },
                                },
                            ),
                            total_shares: t.total_shares + shares,
                            ..t
                        },
                    )
                }
            },
        }
    }
}

/// The ledger after a withdrawal of `shares` for `address` in `block`.
pub open spec fn withdraw(s: LedgerView, address: Address, shares: nat, block: nat) -> Result<
    LedgerView,
    RewardError,
> {
    if block < s.last_block {
        Err(RewardError::OutOfOrder)
    } else {
        match advance(s, block) {
            Err(e) => Err(e),
            Ok(t) => {
                if !has_account(t.accounts, address) {
                    Err(RewardError::UnknownAccount)
                } else {
                    let i = index_of(t.accounts, address);
                    let r = t.accounts[i].record;
                    if settled(r, t.rewards_per_share) >= limit() {
                        Err(RewardError::Overflow)
                    } else if r.shares < shares {
                        Err(RewardError::InsufficientStake)
                    } else {
                        Ok(
                            LedgerView {
                                accounts: t.accounts.update(
                                    i,
                                    AccountView {
                                        address,
                                        record: RecordView {
                                            shares: (r.shares - shares) as nat,
                                            snapshot: t.rewards_per_share,
                                            accumulated: settled(r, t.rewards_per_share),
                                        },
                                    },
                                ),
                                total_shares: (t.total_shares - shares) as nat,
                                ..t
                            },
                        )
                    }
                }
            },
        }
    }
}

/// The ledger after a transfer: the withdrawal from `from`, then the deposit
/// for `to`, both in `block`.
pub open spec fn transfer(
    s: LedgerView,
    from: Address,
    to: Address,
    shares: nat,
    block: nat,
) -> Result<LedgerView, RewardError> {
    match withdraw(s, from, shares, block) {
        Err(e) => Err(e),
        Ok(t) => deposit(t, to, shares, block),
    }
}

/// The ledger after one event.
pub open spec fn apply(s: LedgerView, event: Event) -> Result<LedgerView, RewardError> {
    match event {
        Event::Deposit(e) => deposit(s, e.address, e.shares@, e.block_number as nat),
        Event::Withdrawal(e) => withdraw(s, e.address, e.shares@, e.block_number as nat),
        Event::Transfer(e) => transfer(s, e.from, e.to, e.shares@, e.block_number as nat),
    }
}

/// The ledger after the first `n` events of `events`, or the error of the
/// first of them that is refused.
pub open spec fn replay(s: LedgerView, events: Seq<Event>, n: nat) -> Result<
    LedgerView,
    RewardError,
>
    decreases n,
{
    if n == 0 {
        Ok(s)
    } else {
        match replay(s, events, (n - 1) as nat) {
            Err(e) => Err(e),
            Ok(t) => apply(t, events[n - 1]),
        }
    }
}

/// The most that the first `n` events can lose to rounding: for each event,
/// one scaled unit for each share staked before it.
pub open spec fn rounding_allowance(s: LedgerView, events: Seq<Event>, n: nat) -> nat
    decreases n,
{
    if n == 0 {
        0
    } else {
        match replay(s, events, (n - 1) as nat) {
            Ok(t) => rounding_allowance(s, events, (n - 1) as nat) + t.total_shares,
            Err(_) => rounding_allowance(s, events, (n - 1) as nat),
        }
    }
}

/// What `user` has earned by `block`, in base units.
pub open spec fn preview(s: LedgerView, user: Address, block: nat) -> Result<nat, RewardError> {
    if block < s.last_block {
        Err(RewardError::EarlyEvaluation)
    } else if !has_account(s.accounts, user) {
        Ok(0)
    } else {
        let r = record_of(s.accounts, user);
        if s.total_shares == 0 {
            if settled(r, s.rewards_per_share) >= limit() {
                Err(RewardError::Overflow)
            } else {
                Ok(settled(r, s.rewards_per_share) / precision())
            }
        } else {
            let projected = s.rewards_per_share + issued_per_share(s, block);
            let owed = (projected - r.snapshot) as nat * r.shares + r.accumulated * precision();
            if projected >= limit() || owed >= limit() {
                Err(RewardError::Overflow)
            } else {
                Ok(owed / precision())
            }
        }
    }
}

/// The sum of what the first `n` accounts have earned by `block`.
pub open spec fn total_rewards(s: LedgerView, block: nat, n: nat) -> Result<nat, RewardError>
    decreases n,
{
    if n == 0 {
        if block < s.last_block {
            Err(RewardError::EarlyEvaluation)
        } else {
            Ok(0)
        }
    } else {
        match total_rewards(s, block, (n - 1) as nat) {
            Err(e) => Err(e),
            Ok(sum) => match preview(s, s.accounts[n - 1].address, block) {
                Err(e) => Err(e),
                Ok(reward) => if sum + reward >= limit() {
                    Err(RewardError::Overflow)
                } else {
                    Ok(sum + reward)
                },
            },
        }
    }
}

/// Once the sum over some accounts is refused, the sum over more of them is
/// refused for the same reason.
pub proof fn lemma_total_rewards_refused(s: LedgerView, block: nat, m: nat, n: nat)
    requires
        m <= n,
    ensures
        total_rewards(s, block, m) matches Err(e) ==> total_rewards(s, block, n) == Err::<
            nat,
            RewardError,
        >(e),
    decreases n,
{
    if m < n {
        lemma_total_rewards_refused(s, block, m, (n - 1) as nat);
    }
}

/// Appending a record adds its shares to the sum.
pub proof fn lemma_sum_push(accounts: Seq<AccountView>, a: AccountView)
    ensures
        staked_sum(accounts.push(a)) == staked_sum(accounts) + a.record.shares,
{
    assert(accounts.push(a).drop_last() =~= accounts);
}

/// Replacing a record changes the sum by the difference of the shares.
pub proof fn lemma_sum_update(accounts: Seq<AccountView>, i: int, a: AccountView)
    requires
        0 <= i < accounts.len(),
    ensures
        staked_sum(accounts.update(i, a)) + accounts[i].record.shares == staked_sum(accounts)
            + a.record.shares,
    decreases accounts.len(),
{
    if i == accounts.len() - 1 {
        assert(accounts.update(i, a).drop_last() =~= accounts.drop_last());
    } else {
        lemma_sum_update(accounts.drop_last(), i, a);
        assert(accounts.update(i, a).drop_last() =~= accounts.drop_last().update(i, a));
    }
}

/// Appending a record adds what it is owed to the sum.
pub proof fn lemma_owed_push(accounts: Seq<AccountView>, a: AccountView, rewards_per_share: nat)
    ensures
        owed_sum(accounts.push(a), rewards_per_share) == owed_sum(accounts, rewards_per_share)
            + settled(a.record, rewards_per_share),
{
    assert(accounts.push(a).drop_last() =~= accounts);
}

/// Replacing a record changes the sum owed by the difference of what the two
/// records are owed.
pub proof fn lemma_owed_update(
    accounts: Seq<AccountView>,
    i: int,
    a: AccountView,
    rewards_per_share: nat,
)
    requires
        0 <= i < accounts.len(),
    ensures
        owed_sum(accounts.update(i, a), rewards_per_share) + settled(
            accounts[i].record,
            rewards_per_share,
        ) == owed_sum(accounts, rewards_per_share) + settled(a.record, rewards_per_share),
    decreases accounts.len(),
{
    if i == accounts.len() - 1 {
        assert(accounts.update(i, a).drop_last() =~= accounts.drop_last());
    } else {
        lemma_owed_update(accounts.drop_last(), i, a, rewards_per_share);
        assert(accounts.update(i, a).drop_last() =~= accounts.drop_last().update(i, a));
    }
}

/// Raising the accumulator by `delta` raises the sum owed by `delta` for
/// each share staked.
pub proof fn lemma_owed_raised(accounts: Seq<AccountView>, rewards_per_share: nat, delta: nat)
    requires
        forall|i: int|
            0 <= i < accounts.len() ==> (#[trigger] accounts[i]).record.snapshot
                <= rewards_per_share,
    ensures
        owed_sum(accounts, rewards_per_share + delta) == owed_sum(accounts, rewards_per_share)
            + delta * staked_sum(accounts),
    decreases accounts.len(),
{
    if accounts.len() == 0 {
        assert(delta * 0 == 0);
    } else {
        let rest = accounts.drop_last();
        let r = accounts.last().record;
        assert(accounts.last() == accounts[accounts.len() - 1]);
        assert forall|i: int| 0 <= i < rest.len() implies (#[trigger] rest[i]).record.snapshot
            <= rewards_per_share by {
            assert(rest[i] == accounts[i]);
        }
        lemma_owed_raised(rest, rewards_per_share, delta);
        let grown = (rewards_per_share - r.snapshot) as nat;
        assert((rewards_per_share + delta - r.snapshot) as nat == grown + delta);
        assert((grown + delta) * r.shares == grown * r.shares + delta * r.shares)
            by (nonlinear_arith);
        assert(delta * (staked_sum(rest) + r.shares) == delta * staked_sum(rest) + delta
            * r.shares) by (nonlinear_arith);
    }
}

/// No record holds more shares than the sum.
pub proof fn lemma_sum_bounds(accounts: Seq<AccountView>, i: int)
    requires
        0 <= i < accounts.len(),
    ensures
        accounts[i].record.shares <= staked_sum(accounts),
    decreases accounts.len(),
{
    if i < accounts.len() - 1 {
        lemma_sum_bounds(accounts.drop_last(), i);
    }
}

/// Among distinct accounts, an address stands at one place only.
pub proof fn lemma_index_of(accounts: Seq<AccountView>, i: int)
    requires
        distinct(accounts),
        0 <= i < accounts.len(),
    ensures
        has_account(accounts, accounts[i].address),
        index_of(accounts, accounts[i].address) == i,
{
    let j = index_of(accounts, accounts[i].address);
    assert(accounts[j].address == accounts[i].address);
}

} // verus!
