//! The ledger itself: the running totals, the record of each account, and
//! the operations that replay events and answer queries.
use crate::amount::{limit, Amount};
use crate::event::{Address, Deposit, Event, Transfer, Withdraw};
use crate::laws::{
    advance_keeps_invariant, deposit_keeps_invariant, withdraw_keeps_invariant,
    withdraw_touches_one_record,
};
use crate::model::{
    advance, apply, empty_ledger, has_account, index_of, ledger_wf, lemma_index_of,
    lemma_sum_bounds, lemma_total_rewards_refused, precision, preview, replay, reward_per_block,
    settled, total_rewards, AccountView, LedgerView, RecordView, RewardError,
};
use vstd::prelude::*;

verus! {

/// The block in which the vault was deployed: rewards are issued from here on.
pub const BLOCK_CONTRACT_DEPLOYED: u64 = 17564663;

/// What the ledger holds for one account.
#[derive(Clone, Copy, Debug, PartialEq, Eq)]
pub struct UserRecord {
    /// The shares that the account has staked.
    pub shares_staked: Amount,
    /// The accumulator's value when the record was last settled.
    pub rewards_per_share_snapshot: Amount,
    /// The reward settled so far, scaled as the accumulator is.
    pub rewards_accumulated: Amount,
}

impl View for UserRecord {
    type V = RecordView;

    open spec fn view(&self) -> RecordView {
        RecordView {
            shares: self.shares_staked@,
            snapshot: self.rewards_per_share_snapshot@,
            accumulated: self.rewards_accumulated@,
        }
    }
}

impl UserRecord {
    /// What the record is owed once the accumulator stands at
    /// `rewards_per_share`, or `None` where that does not fit in 256 bits.
    pub fn settled(&self, rewards_per_share: Amount) -> (r: Option<Amount>)
        requires
            self@.snapshot <= rewards_per_share@,
        ensures
            match r {
                Some(v) => v@ == settled(self@, rewards_per_share@),
                None => settled(self@, rewards_per_share@) >= limit(),
            },
    {
        let grown = rewards_per_share.difference(self.rewards_per_share_snapshot);
        match grown.checked_mul(self.shares_staked) {
            None => None,
            Some(accrued) => self.rewards_accumulated.checked_add(accrued),
        }
    }
}

/// An account and its record.
#[derive(Clone, Copy, Debug, PartialEq, Eq)]
pub struct Account {
    pub address: Address,
    pub record: UserRecord,
}

impl View for Account {
    type V = AccountView;

    open spec fn view(&self) -> AccountView {
        AccountView { address: self.address, record: self.record@ }
    }
}

/// The ledger of a vault.
#[derive(Debug)]
pub struct GlobalState {
    user_records: Vec<Account>,
    total_shares_staked: Amount,
    total_rewards_per_share: Amount,
    last_accounted_block: u64,
}

impl View for GlobalState {
    type V = LedgerView;

    closed spec fn view(&self) -> LedgerView {
        LedgerView {
            accounts: Seq::new(self.user_records@.len(), |i: int| self.user_records@[i]@),
            total_shares: self.total_shares_staked@,
            rewards_per_share: self.total_rewards_per_share@,
            last_block: self.last_accounted_block as nat,
        }
    }
}

/// The reward per share, scaled, that `elapsed` blocks issue to a stake of
/// `total` shares.
fn issued_for(elapsed: u64, total: Amount) -> (r: Amount)
    requires
        total@ != 0,
    ensures
        r@ == (elapsed as nat * reward_per_block() * precision()) / total@,
{
    let rate = Amount::ether(1);
    let scale = Amount::ether(1);
    proof {
        let e = elapsed as nat;
        let w = precision();
        assert(e * w <= 0xffff_ffff_ffff_ffff * w) by (nonlinear_arith)
            requires
                e <= 0xffff_ffff_ffff_ffff,
        ;
        assert(e * w * w <= 0xffff_ffff_ffff_ffff * w * w) by (nonlinear_arith)
            requires
                e * w <= 0xffff_ffff_ffff_ffff * w,
        ;
        assert(w == 1_000_000_000_000_000_000);
        assert(0xffff_ffff_ffff_ffff * w * w < limit()) by (nonlinear_arith)
            requires
                w == 1_000_000_000_000_000_000,
                limit() == 0x1_0000_0000_0000_0000 * 0x1_0000_0000_0000_0000
                    * 0x1_0000_0000_0000_0000 * 0x1_0000_0000_0000_0000,
        ;
        assert(e * w * w < limit());
    }
    let pending = Amount::from_u64(elapsed).product(rate);
    pending.product(scale).quotient(total)
}

/// Whether entry `a` stands before entry `b` in a ranking: the larger reward
/// first, and of two equal rewards the smaller address.
pub open spec fn ranks_before(a: (Address, Amount), b: (Address, Amount)) -> bool {
    a.1@ > b.1@ || (a.1@ == b.1@ && a.0.precedes(b.0))
}

/// Whether every entry stands before all that follow it.
pub open spec fn ranked(list: Seq<(Address, Amount)>) -> bool {
    forall|i: int, j: int| 0 <= i < j < list.len() ==> ranks_before(list[i], list[j])
}

/// Whether `list` has an entry for `address`.
pub open spec fn lists(list: Seq<(Address, Amount)>, address: Address) -> bool {
    exists|k: int| 0 <= k < list.len() && (#[trigger] list[k]).0 == address
}

/// Whether entry `a` stands before entry `b` in a ranking.
fn stands_before(a: &(Address, Amount), b: &(Address, Amount)) -> (r: bool)
    ensures
        r == ranks_before(*a, *b),
{
    if b.1.less_than(&a.1) {
        true
    } else if a.1.less_than(&b.1) {
        false
    } else {
        a.0.is_before(&b.0)
    }
}

/// Puts `entry` at its place in a ranking that has no entry for its address.
fn insert_ranked(list: &mut Vec<(Address, Amount)>, entry: (Address, Amount))
    requires
        ranked(old(list)@),
        !lists(old(list)@, entry.0),
    ensures
        ranked(final(list)@),
        exists|p: int|
            0 <= p <= old(list)@.len() && final(list)@ == #[trigger] old(list)@.insert(p, entry),
{
    let mut p: usize = 0;
    while p < list.len() && stands_before(&list[p], &entry)
        invariant
            p <= list@.len(),
            list@ == old(list)@,
            forall|i: int| 0 <= i < p ==> ranks_before(#[trigger] list@[i], entry),
        decreases list@.len() - p,
    {
        p += 1;
    }
    proof {
        assert forall|j: int| p <= j < list@.len() implies ranks_before(
            entry,
            #[trigger] list@[j],
        ) by {
            assert(list@[p as int].0 != entry.0);
            assert(list@[j].0 != entry.0);
            assert(!ranks_before(list@[p as int], entry));
            if p < j {
                assert(ranks_before(list@[p as int], list@[j]));
            }
        }
    }
    list.insert(p, entry);
    assert forall|i: int, j: int| 0 <= i < j < list@.len() implies ranks_before(
        list@[i],
        list@[j],
    ) by {
        let before = old(list)@;
        if j < p {
            assert(ranks_before(before[i], before[j]));
        } else if j == p {
            assert(ranks_before(before[i], entry));
        } else if i < p {
            assert(ranks_before(before[i], before[j - 1]));
        } else if i == p {
            assert(ranks_before(entry, before[j - 1]));
        } else {
            assert(ranks_before(before[i - 1], before[j - 1]));
        }
    }
}

impl GlobalState {
    /// The ledger's invariant holds: see `ledger_wf`.
    pub open spec fn wf(&self) -> bool {
        ledger_wf(self@)
    }

    /// The empty ledger of a vault deployed in `BLOCK_CONTRACT_DEPLOYED`.
    pub fn new() -> (r: GlobalState)
        ensures
            r.wf(),
            r@ == empty_ledger(BLOCK_CONTRACT_DEPLOYED as nat),
    {
        let r = GlobalState {
            user_records: Vec::new(),
            total_shares_staked: Amount::from_u64(0),
            total_rewards_per_share: Amount::from_u64(0),
            last_accounted_block: BLOCK_CONTRACT_DEPLOYED,
        };
        assert(r@.accounts =~= Seq::empty());
        r
    }

    /// The total of the shares staked.
    pub fn total_shares_staked(&self) -> (r: Amount)
        ensures
            r@ == self@.total_shares,
    {
        self.total_shares_staked
    }

    /// The reward-per-share accumulator.
    pub fn total_rewards_per_share(&self) -> (r: Amount)
        ensures
            r@ == self@.rewards_per_share,
    {
        self.total_rewards_per_share
    }

    /// The block that rewards are accounted to.
    pub fn last_accounted_block(&self) -> (r: u64)
        ensures
            r == self@.last_block,
    {
        self.last_accounted_block
    }

    /// The record of `address`, if it has one.
    pub fn user_record(&self, address: Address) -> (r: Option<UserRecord>)
        requires
            self.wf(),
        ensures
            match r {
                Some(record) => has_account(self@.accounts, address) && record@
                    == self@.accounts[index_of(self@.accounts, address)].record,
                None => !has_account(self@.accounts, address),
            },
    {
        match self.find(&address) {
            Some(i) => Some(self.user_records[i].record),
            None => None,
        }
    }

    /// Where the record of `address` stands, if it has one.
    fn find(&self, address: &Address) -> (r: Option<usize>)
        requires
            self.wf(),
        ensures
            match r {
                Some(i) => i < self.user_records@.len() && has_account(self@.accounts, *address)
                    && i == index_of(self@.accounts, *address)
                    && self.user_records@[i as int].address == *address,
                None => !has_account(self@.accounts, *address),
            },
    {
        let mut i: usize = 0;
        while i < self.user_records.len()
            invariant
                i <= self.user_records@.len(),
                self.wf(),
                forall|j: int| 0 <= j < i ==> (#[trigger] self@.accounts[j]).address != *address,
            decreases self.user_records@.len() - i,
        {
            if self.user_records[i].address == *address {
                proof {
                    assert(self@.accounts[i as int].address == *address);
                    lemma_index_of(self@.accounts, i as int);
                }
                return Some(i);
            }
            i += 1;
        }
        None
    }

    /// Brings the accumulator up to `block_number`. Nothing changes where the
    /// block is not ahead, where nothing is staked, or where the accumulator
    /// would no longer fit in 256 bits, which is an error.
    pub fn distribute_rewards(&mut self, block_number: u64) -> (r: Result<(), RewardError>)
        requires
            old(self).wf(),
        ensures
            final(self).wf(),
            match r {
                Ok(()) => advance(old(self)@, block_number as nat) == Ok::<
                    LedgerView,
                    RewardError,
                >(final(self)@),
                Err(e) => advance(old(self)@, block_number as nat) == Err::<
                    LedgerView,
                    RewardError,
                >(e) && final(self)@ == old(self)@,
            },
    {
        if self.last_accounted_block >= block_number || self.total_shares_staked.is_zero() {
            return Ok(());
        }
        let elapsed: u64 = block_number - self.last_accounted_block;
        let issued = issued_for(elapsed, self.total_shares_staked);
        match self.total_rewards_per_share.checked_add(issued) {
            None => Err(RewardError::Overflow),
            Some(raised) => {
                proof {
                    advance_keeps_invariant(self@, block_number as nat);
                }
                self.last_accounted_block = block_number;
                self.total_rewards_per_share = raised;
                Ok(())
            },
        }
    }

    /// Applies a deposit: brings the accumulator up to the deposit's block,
    /// settles what the account has earned so far, and adds the shares to
    /// the account and to the total. The account's record is created where
    /// it has none. On an error the ledger is left as it was.
    pub fn process_deposit(&mut self, deposit: Deposit) -> (r: Result<(), RewardError>)
        requires
            old(self).wf(),
        ensures
            final(self).wf(),
            match r {
                Ok(()) => apply(old(self)@, Event::Deposit(deposit)) == Ok::<
                    LedgerView,
                    RewardError,
                >(final(self)@),
                Err(e) => apply(old(self)@, Event::Deposit(deposit)) == Err::<
                    LedgerView,
                    RewardError,
                >(e) && final(self)@ == old(self)@,
            },
    {
        if deposit.block_number < self.last_accounted_block {
            return Err(RewardError::OutOfOrder);
        }
        let block_before = self.last_accounted_block;
        let rewards_before = self.total_rewards_per_share;
        match self.distribute_rewards(deposit.block_number) {
            Err(e) => {
                return Err(e);
            },
            Ok(()) => {},
        }
        let ghost advanced = self@;
        proof {
            deposit_keeps_invariant(
                old(self)@,
                deposit.address,
                deposit.shares@,
                deposit.block_number as nat,
            );
        }
        let total = match self.total_shares_staked.checked_add(deposit.shares) {
            Some(total) => total,
            None => {
                self.last_accounted_block = block_before;
                self.total_rewards_per_share = rewards_before;
                return Err(RewardError::Overflow);
            },
        };
        match self.find(&deposit.address) {
            Some(i) => {
                let user = self.user_records[i].record;
                assert(user@ == advanced.accounts[i as int].record);
                proof {
                    lemma_sum_bounds(advanced.accounts, i as int);
                }
                match user.settled(self.total_rewards_per_share) {
                    None => {
                        self.last_accounted_block = block_before;
                        self.total_rewards_per_share = rewards_before;
                        return Err(RewardError::Overflow);
                    },
                    Some(owed) => {
                        let record = UserRecord {
                            shares_staked: user.shares_staked.sum(deposit.shares),
                            rewards_accumulated: owed,
                            rewards_per_share_snapshot: self.total_rewards_per_share,
                        };
                        self.user_records.set(i, Account { address: deposit.address, record });
                        self.total_shares_staked = total;
                        assert(self@.accounts =~= advanced.accounts.update(
                            i as int,
                            AccountView { address: deposit.address, record: record@ },
                        ));
                    },
                }
            },
            None => {
                let record = UserRecord {
                    shares_staked: deposit.shares,
                    rewards_accumulated: Amount::from_u64(0),
                    rewards_per_share_snapshot: self.total_rewards_per_share,
                };
                self.user_records.push(Account { address: deposit.address, record });
                self.total_shares_staked = total;
                assert(self@.accounts =~= advanced.accounts.push(
                    AccountView { address: deposit.address, record: record@ },
                ));
            },
        }
        Ok(())
    }

    /// Applies a withdrawal: brings the accumulator up to the withdrawal's
    /// block, settles what the account has earned so far, and takes the
    /// shares from the account and from the total. On an error the ledger is
    /// left as it was.
    pub fn process_withdraw(&mut self, withdraw: Withdraw) -> (r: Result<(), RewardError>)
        requires
            old(self).wf(),
        ensures
            final(self).wf(),
            match r {
                Ok(()) => apply(old(self)@, Event::Withdrawal(withdraw)) == Ok::<
                    LedgerView,
                    RewardError,
                >(final(self)@),
                Err(e) => apply(old(self)@, Event::Withdrawal(withdraw)) == Err::<
                    LedgerView,
                    RewardError,
                >(e) && final(self)@ == old(self)@,
            },
    {
        if withdraw.block_number < self.last_accounted_block {
            return Err(RewardError::OutOfOrder);
        }
        let block_before = self.last_accounted_block;
        let rewards_before = self.total_rewards_per_share;
        match self.distribute_rewards(withdraw.block_number) {
            Err(e) => {
                return Err(e);
            },
            Ok(()) => {},
        }
        let ghost advanced = self@;
        proof {
            withdraw_keeps_invariant(
                old(self)@,
                withdraw.address,
                withdraw.shares@,
                withdraw.block_number as nat,
            );
        }
        let i = match self.find(&withdraw.address) {
            Some(i) => i,
            None => {
                self.last_accounted_block = block_before;
                self.total_rewards_per_share = rewards_before;
                return Err(RewardError::UnknownAccount);
            },
        };
        let user = self.user_records[i].record;
        assert(user@ == advanced.accounts[i as int].record);
        proof {
            lemma_sum_bounds(advanced.accounts, i as int);
        }
        let owed = match user.settled(self.total_rewards_per_share) {
            Some(owed) => owed,
            None => {
                self.last_accounted_block = block_before;
                self.total_rewards_per_share = rewards_before;
                return Err(RewardError::Overflow);
            },
        };
        let shares = match user.shares_staked.checked_sub(withdraw.shares) {
            Some(shares) => shares,
            None => {
                self.last_accounted_block = block_before;
                self.total_rewards_per_share = rewards_before;
                return Err(RewardError::InsufficientStake);
            },
        };
        let record = UserRecord {
            shares_staked: shares,
            rewards_accumulated: owed,
            rewards_per_share_snapshot: self.total_rewards_per_share,
        };
        self.user_records.set(i, Account { address: withdraw.address, record });
        self.total_shares_staked = self.total_shares_staked.difference(withdraw.shares);
        assert(self@.accounts =~= advanced.accounts.update(
            i as int,
            AccountView { address: withdraw.address, record: record@ },
        ));
        Ok(())
    }

    /// Applies a transfer as the withdrawal from the sender followed by the
    /// deposit for the receiver, both in the transfer's block. On an error
    /// the ledger is left as it was.
    pub fn process_transfer(&mut self, transfer: Transfer) -> (r: Result<(), RewardError>)
        requires
            old(self).wf(),
        ensures
            final(self).wf(),
            match r {
                Ok(()) => apply(old(self)@, Event::Transfer(transfer)) == Ok::<
                    LedgerView,
                    RewardError,
                >(final(self)@),
                Err(e) => apply(old(self)@, Event::Transfer(transfer)) == Err::<
                    LedgerView,
                    RewardError,
                >(e) && final(self)@ == old(self)@,
            },
    {
        let withdrawal = Withdraw {
            address: transfer.from,
            shares: transfer.shares,
            block_number: transfer.block_number,
        };
        let deposit = Deposit {
            address: transfer.to,
            shares: transfer.shares,
            block_number: transfer.block_number,
        };
        let block_before = self.last_accounted_block;
        let rewards_before = self.total_rewards_per_share;
        let total_before = self.total_shares_staked;
        let slot = self.find(&transfer.from);
        let sender_before = match slot {
            Some(i) => Some(self.user_records[i]),
            None => None,
        };
        proof {
            withdraw_touches_one_record(
                old(self)@,
                transfer.from,
                transfer.shares@,
                transfer.block_number as nat,
            );
        }
        match self.process_withdraw(withdrawal) {
            Err(e) => {
                return Err(e);
            },
            Ok(()) => {},
        }
        let ghost withdrawn = self@;
        match self.process_deposit(deposit) {
            Ok(()) => Ok(()),
            Err(e) => {
                match (slot, sender_before) {
                    (Some(i), Some(account)) => {
                        self.user_records.set(i, account);
                    },
                    _ => {},
                }
                self.last_accounted_block = block_before;
                self.total_rewards_per_share = rewards_before;
                self.total_shares_staked = total_before;
                assert(slot is Some);
                assert(self@.accounts.len() == old(self)@.accounts.len());
                assert forall|j: int| 0 <= j < self@.accounts.len() implies self@.accounts[j]
                    == old(self)@.accounts[j] by {
                    if j != slot->Some_0 {
                        assert(self@.accounts[j] == withdrawn.accounts[j]);
                    }
                }
                assert(self@.accounts =~= old(self)@.accounts);
                Err(e)
            },
        }
    }

    /// Replays `evts` in the order given. Stops at the first event that is
    /// refused: the ledger then holds the events before it, and the error
    /// says which event it was and why.
    pub fn process_events(&mut self, evts: Vec<Event>) -> (r: Result<(), ReplayError>)
        requires
            old(self).wf(),
        ensures
            final(self).wf(),
            match r {
                Ok(()) => replay(old(self)@, evts@, evts@.len()) == Ok::<LedgerView, RewardError>(
                    final(self)@,
                ),
                Err(e) => e.index < evts@.len() && replay(old(self)@, evts@, e.index as nat)
                    == Ok::<LedgerView, RewardError>(final(self)@) && apply(
                    final(self)@,
                    evts@[e.index as int],
                ) == Err::<LedgerView, RewardError>(e.reason),
            },
    {
        let mut i: usize = 0;
        while i < evts.len()
            invariant
                i <= evts@.len(),
                self.wf(),
                replay(old(self)@, evts@, i as nat) == Ok::<LedgerView, RewardError>(self@),
            decreases evts@.len() - i,
        {
            let outcome = match evts[i] {
                Event::Deposit(deposit) => self.process_deposit(deposit),
                Event::Withdrawal(withdrawal) => self.process_withdraw(withdrawal),
                Event::Transfer(transfer) => self.process_transfer(transfer),
            };
            match outcome {
                Err(reason) => {
                    return Err(ReplayError { index: i, reason });
                },
                Ok(()) => {},
            }
            i += 1;
        }
        Ok(())
    }

    /// What `user` has earned by `block_number`, in base units. An account
    /// without a record has earned nothing. A block before the one that
    /// rewards are accounted to is refused, and so is a reward that does not
    /// fit in 256 bits. The ledger is not changed.
    pub fn preview_user_rewards(&self, user: Address, block_number: u64) -> (r: Result<
        Amount,
        RewardError,
    >)
        requires
            self.wf(),
        ensures
            match r {
                Ok(v) => preview(self@, user, block_number as nat) == Ok::<nat, RewardError>(v@),
                Err(e) => preview(self@, user, block_number as nat) == Err::<nat, RewardError>(e),
            },
    {
        if block_number < self.last_accounted_block {
            return Err(RewardError::EarlyEvaluation);
        }
        let i = match self.find(&user) {
            Some(i) => i,
            None => {
                return Ok(Amount::from_u64(0));
            },
        };
        let user_record = self.user_records[i].record;
        assert(user_record@ == self@.accounts[i as int].record);
        let scale = Amount::ether(1);
        if self.total_shares_staked.is_zero() {
            return match user_record.settled(self.total_rewards_per_share) {
                None => Err(RewardError::Overflow),
                Some(owed) => Ok(owed.quotient(scale)),
            };
        }
        let elapsed: u64 = block_number - self.last_accounted_block;
        let issued = issued_for(elapsed, self.total_shares_staked);
        let projected = match self.total_rewards_per_share.checked_add(issued) {
            Some(projected) => projected,
            None => {
                return Err(RewardError::Overflow);
            },
        };
        let grown = projected.difference(user_record.rewards_per_share_snapshot);
        let fresh = match grown.checked_mul(user_record.shares_staked) {
            Some(fresh) => fresh,
            None => {
                return Err(RewardError::Overflow);
            },
        };
        let carried = match user_record.rewards_accumulated.checked_mul(scale) {
            Some(carried) => carried,
            None => {
                return Err(RewardError::Overflow);
            },
        };
        match fresh.checked_add(carried) {
            Some(owed) => Ok(owed.quotient(scale)),
            None => Err(RewardError::Overflow),
        }
    }

    /// The sum of what every account with a record has earned by
    /// `block_number`. Refused where the block lies before the one that
    /// rewards are accounted to, or where a reward or the sum does not fit
    /// in 256 bits.
    pub fn get_all_rewards(&self, block_number: u64) -> (r: Result<Amount, RewardError>)
        requires
            self.wf(),
        ensures
            match r {
                Ok(v) => total_rewards(self@, block_number as nat, self@.accounts.len()) == Ok::<
                    nat,
                    RewardError,
                >(v@),
                Err(e) => total_rewards(self@, block_number as nat, self@.accounts.len())
                    == Err::<nat, RewardError>(e),
            },
    {
        if block_number < self.last_accounted_block {
            proof {
                lemma_total_rewards_refused(
                    self@,
                    block_number as nat,
                    0,
                    self@.accounts.len(),
                );
            }
            return Err(RewardError::EarlyEvaluation);
        }
        let mut rewards = Amount::from_u64(0);
        let mut i: usize = 0;
        while i < self.user_records.len()
            invariant
                i <= self.user_records@.len(),
                self.wf(),
                self@.accounts.len() == self.user_records@.len(),
                total_rewards(self@, block_number as nat, i as nat) == Ok::<nat, RewardError>(
                    rewards@,
                ),
            decreases self.user_records@.len() - i,
        {
            let address = self.user_records[i].address;
            assert(self@.accounts[i as int].address == address);
            let next = match self.preview_user_rewards(address, block_number) {
                Ok(reward) => rewards.checked_add(reward),
                Err(e) => {
                    proof {
                        lemma_total_rewards_refused(
                            self@,
                            block_number as nat,
                            (i + 1) as nat,
                            self@.accounts.len(),
                        );
                    }
                    return Err(e);
                },
            };
            match next {
                Some(sum) => {
                    rewards = sum;
                },
                None => {
                    proof {
                        lemma_total_rewards_refused(
                            self@,
                            block_number as nat,
                            (i + 1) as nat,
                            self@.accounts.len(),
                        );
                    }
                    return Err(RewardError::Overflow);
                },
            }
            i += 1;
        }
        Ok(rewards)
    }

    /// The accounts that have earned something by `block_number`, each with
    /// its reward, the largest reward first; of two equal rewards the
    /// smaller address comes first. Refused where the block lies before the
    /// one that rewards are accounted to, or where a reward does not fit in
    /// 256 bits.
    pub fn get_user_rewards(&self, block_number: u64) -> (r: Result<
        Vec<(Address, Amount)>,
        RewardError,
    >)
        requires
            self.wf(),
        ensures
            match r {
                Ok(list) => {
                    &&& block_number >= self@.last_block
                    &&& ranked(list@)
                    &&& forall|k: int|
                        0 <= k < list@.len() ==> has_account(
                            self@.accounts,
                            (#[trigger] list@[k]).0,
                        ) && list@[k].1@ != 0 && preview(
                            self@,
                            list@[k].0,
                            block_number as nat,
                        ) == Ok::<nat, RewardError>(list@[k].1@)
                    &&& forall|j: int|
                        0 <= j < self@.accounts.len() ==> match preview(
                            self@,
                            (#[trigger] self@.accounts[j]).address,
                            block_number as nat,
                        ) {
                            Ok(reward) => reward != 0 ==> lists(list@, self@.accounts[j].address),
                            Err(_) => false,
                        }
                },
                Err(e) => if block_number < self@.last_block {
                    e == RewardError::EarlyEvaluation
                } else {
                    e == RewardError::Overflow && exists|j: int|
                        0 <= j < self@.accounts.len() && preview(
                            self@,
                            (#[trigger] self@.accounts[j]).address,
                            block_number as nat,
                        ) == Err::<nat, RewardError>(RewardError::Overflow)
                },
            },
    {
        if block_number < self.last_accounted_block {
            return Err(RewardError::EarlyEvaluation);
        }
        let mut records: Vec<(Address, Amount)> = Vec::new();
        let mut i: usize = 0;
        while i < self.user_records.len()
            invariant
                i <= self.user_records@.len(),
                self.wf(),
                block_number >= self@.last_block,
                self@.accounts.len() == self.user_records@.len(),
                ranked(records@),
                forall|k: int|
                    0 <= k < records@.len() ==> (exists|j: int|
                        0 <= j < i && (#[trigger] self@.accounts[j]).address == records@[k].0) && (
                    #[trigger] records@[k]).1@ != 0 && preview(
                        self@,
                        records@[k].0,
                        block_number as nat,
                    ) == Ok::<nat, RewardError>(records@[k].1@),
                forall|j: int|
                    0 <= j < i ==> match preview(
                        self@,
                        (#[trigger] self@.accounts[j]).address,
                        block_number as nat,
                    ) {
                        Ok(reward) => reward != 0 ==> lists(records@, self@.accounts[j].address),
                        Err(_) => false,
                    },
            decreases self.user_records@.len() - i,
        {
            let address = self.user_records[i].address;
            assert(self@.accounts[i as int].address == address);
            let reward = match self.preview_user_rewards(address, block_number) {
                Ok(reward) => reward,
                Err(e) => {
                    return Err(e);
                },
            };
            if !reward.is_zero() {
                let ghost before = records@;
                proof {
                    if lists(before, address) {
                        let k = choose|k: int| 0 <= k < before.len() && (#[trigger] before[k]).0
                            == address;
                        let j = choose|j: int|
                            0 <= j < i && (#[trigger] self@.accounts[j]).address == before[k].0;
                        assert(self@.accounts[j].address != self@.accounts[i as int].address);
                    }
                }
                insert_ranked(&mut records, (address, reward));
                proof {
                    let p = choose|p: int|
                        0 <= p <= before.len() && records@ == #[trigger] before.insert(
                            p,
                            (address, reward),
                        );
                    assert(records@[p] == (address, reward));
                    assert forall|k: int| 0 <= k < records@.len() implies (exists|j: int|
                        0 <= j < i + 1 && (#[trigger] self@.accounts[j]).address == records@[k].0)
                        && (#[trigger] records@[k]).1@ != 0 && preview(
                        self@,
                        records@[k].0,
                        block_number as nat,
                    ) == Ok::<nat, RewardError>(records@[k].1@) by {
                        if k < p {
                            assert(records@[k] == before[k]);
                            let j = choose|j: int|
                                0 <= j < i && (#[trigger] self@.accounts[j]).address
                                    == before[k].0;
                            assert(self@.accounts[j].address == records@[k].0);
                        } else if k == p {
                            assert(self@.accounts[i as int].address == records@[k].0);
                        } else {
                            assert(records@[k] == before[k - 1]);
                            let j = choose|j: int|
                                0 <= j < i && (#[trigger] self@.accounts[j]).address == before[k
                                    - 1].0;
                            assert(self@.accounts[j].address == records@[k].0);
                        }
                    }
                    assert forall|j: int| 0 <= j < i + 1 implies match preview(
                        self@,
                        (#[trigger] self@.accounts[j]).address,
                        block_number as nat,
                    ) {
                        Ok(found) => found != 0 ==> lists(records@, self@.accounts[j].address),
                        Err(_) => false,
                    } by {
                        if j == i {
                            assert(records@[p].0 == self@.accounts[j].address);
                        } else if let Ok(found) = preview(
                            self@,
                            self@.accounts[j].address,
                            block_number as nat,
                        ) {
                            if found != 0 {
                                let k = choose|k: int|
                                    0 <= k < before.len() && (#[trigger] before[k]).0
                                        == self@.accounts[j].address;
                                if k < p {
                                    assert(records@[k] == before[k]);
                                } else {
                                    assert(records@[k + 1] == before[k]);
                                }
                            }
                        }
                    }
                }
            }
            i += 1;
        }
        proof {
            assert forall|k: int| 0 <= k < records@.len() implies has_account(
                self@.accounts,
                (#[trigger] records@[k]).0,
            ) by {
                let j = choose|j: int|
                    0 <= j < i && (#[trigger] self@.accounts[j]).address == records@[k].0;
                assert(self@.accounts[j].address == records@[k].0);
            }
        }
        Ok(records)
    }
}

/// Why a replay stopped: the place of the event that was refused, and the
/// reason.
#[derive(Clone, Copy, Debug, PartialEq, Eq)]
pub struct ReplayError {
    pub index: usize,
    pub reason: RewardError,
}

} // verus!
