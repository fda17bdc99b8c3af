//! What holds of every ledger and every event.
use crate::amount::{lemma_value_decides_amount, limit, Amount};
use crate::event::{Address, Deposit, Event, Transfer, Withdraw};
use crate::model::{
    advance, apply, deposit, empty_ledger, first_deposits, has_account, index_of,
    issued_per_share, ledger_wf, lemma_index_of, lemma_owed_push, lemma_owed_raised,
    lemma_owed_update, lemma_sum_bounds, lemma_sum_push, lemma_sum_update,
    lemma_total_rewards_refused, owed_sum, precision, preview, replay, reward_per_block,
    rounding_allowance, settled, staked_sum, total_rewards, withdraw, within_issue, LedgerView,
    RewardError,
};
use vstd::arithmetic::div_mod::{lemma_fundamental_div_mod, lemma_mod_pos_bound};
use vstd::prelude::*;

verus! {

/// Bringing the accumulator up to a block keeps the ledger's invariant, and
/// moves neither the accumulator nor the accounted block backwards.
pub proof fn advance_keeps_invariant(s: LedgerView, block: nat)
    requires
        ledger_wf(s),
    ensures
        advance(s, block) matches Ok(t) ==> ledger_wf(t) && t.accounts == s.accounts
            && t.total_shares == s.total_shares && s.rewards_per_share <= t.rewards_per_share
            && s.last_block <= t.last_block && (block >= s.last_block ==> t.last_block <= block),
{
}

/// A deposit keeps the ledger's invariant: afterwards the total is again the
/// sum of the records' shares.
pub proof fn deposit_keeps_invariant(s: LedgerView, address: Address, shares: nat, block: nat)
    requires
        ledger_wf(s),
    ensures
        deposit(s, address, shares, block) matches Ok(u) ==> ledger_wf(u),
{
    if let Ok(u) = deposit(s, address, shares, block) {
        advance_keeps_invariant(s, block);
        let t = advance(s, block)->Ok_0;
        if has_account(t.accounts, address) {
            let i = index_of(t.accounts, address);
            lemma_sum_update(t.accounts, i, u.accounts[i]);
            assert forall|j: int, k: int| 0 <= j < k < u.accounts.len() implies (
            #[trigger] u.accounts[j]).address != (#[trigger] u.accounts[k]).address by {
                assert(u.accounts[j].address == t.accounts[j].address);
                assert(u.accounts[k].address == t.accounts[k].address);
            }
            assert forall|j: int| 0 <= j < u.accounts.len() implies (
            #[trigger] u.accounts[j]).record.snapshot <= u.rewards_per_share by {
                if j != i {
                    assert(u.accounts[j] == t.accounts[j]);
                }
            }
        } else {
            let a = u.accounts.last();
            lemma_sum_push(t.accounts, a);
            assert forall|j: int, k: int| 0 <= j < k < u.accounts.len() implies (
            #[trigger] u.accounts[j]).address != (#[trigger] u.accounts[k]).address by {
                assert(u.accounts[j] == t.accounts[j]);
                if k < t.accounts.len() {
                    assert(u.accounts[k] == t.accounts[k]);
                }
            }
            assert forall|j: int| 0 <= j < u.accounts.len() implies (
            #[trigger] u.accounts[j]).record.snapshot <= u.rewards_per_share by {
                if j < t.accounts.len() {
                    assert(u.accounts[j] == t.accounts[j]);
                }
            }
        }
    }
}

/// A withdrawal keeps the ledger's invariant: afterwards the total is again
/// the sum of the records' shares.
pub proof fn withdraw_keeps_invariant(s: LedgerView, address: Address, shares: nat, block: nat)
    requires
        ledger_wf(s),
    ensures
        withdraw(s, address, shares, block) matches Ok(u) ==> ledger_wf(u),
{
    if let Ok(u) = withdraw(s, address, shares, block) {
        advance_keeps_invariant(s, block);
        let t = advance(s, block)->Ok_0;
        let i = index_of(t.accounts, address);
        lemma_sum_update(t.accounts, i, u.accounts[i]);
        lemma_sum_bounds(t.accounts, i);
        assert forall|j: int, k: int| 0 <= j < k < u.accounts.len() implies (
        #[trigger] u.accounts[j]).address != (#[trigger] u.accounts[k]).address by {
            assert(u.accounts[j].address == t.accounts[j].address);
            assert(u.accounts[k].address == t.accounts[k].address);
        }
        assert forall|j: int| 0 <= j < u.accounts.len() implies (
        #[trigger] u.accounts[j]).record.snapshot <= u.rewards_per_share by {
            if j != i {
                assert(u.accounts[j] == t.accounts[j]);
            }
        }
    }
}

/// A withdrawal that is applied touches the record of its account and no
/// other.
pub proof fn withdraw_touches_one_record(s: LedgerView, address: Address, shares: nat, block: nat)
    requires
        ledger_wf(s),
    ensures
        withdraw(s, address, shares, block) matches Ok(u) ==> has_account(s.accounts, address)
            && u.accounts.len() == s.accounts.len() && forall|j: int|
            0 <= j < s.accounts.len() && j != index_of(s.accounts, address)
                ==> #[trigger] u.accounts[j] == s.accounts[j],
{
    advance_keeps_invariant(s, block);
}

/// Conservation: after every event that is applied, the total of the shares
/// staked is the sum of the shares of all records, no address has two
/// records, and no snapshot is ahead of the accumulator.
pub proof fn apply_keeps_invariant(s: LedgerView, event: Event)
    requires
        ledger_wf(s),
    ensures
        apply(s, event) matches Ok(u) ==> ledger_wf(u) && u.total_shares == staked_sum(
            u.accounts,
        ),
{
    match event {
        Event::Deposit(e) => {
            deposit_keeps_invariant(s, e.address, e.shares@, e.block_number as nat);
        },
        Event::Withdrawal(e) => {
            withdraw_keeps_invariant(s, e.address, e.shares@, e.block_number as nat);
        },
        Event::Transfer(e) => {
            withdraw_keeps_invariant(s, e.from, e.shares@, e.block_number as nat);
            if let Ok(t) = withdraw(s, e.from, e.shares@, e.block_number as nat) {
                deposit_keeps_invariant(t, e.to, e.shares@, e.block_number as nat);
            }
        },
    }
}

/// Conservation over a whole history: the invariant holds after every prefix
/// of the events that is applied.
pub proof fn replay_keeps_invariant(s: LedgerView, events: Seq<Event>, n: nat)
    requires
        ledger_wf(s),
        n <= events.len(),
    ensures
        replay(s, events, n) matches Ok(u) ==> ledger_wf(u) && u.total_shares == staked_sum(
            u.accounts,
        ),
    decreases n,
{
    if n > 0 {
        replay_keeps_invariant(s, events, (n - 1) as nat);
        if let Ok(t) = replay(s, events, (n - 1) as nat) {
            apply_keeps_invariant(t, events[n - 1]);
        }
    }
}

/// Monotonicity: an event moves neither the accumulator nor the accounted
/// block backwards, and the accounted block is never ahead of the event's
/// block.
pub proof fn apply_is_monotonic(s: LedgerView, event: Event)
    requires
        ledger_wf(s),
    ensures
        apply(s, event) matches Ok(u) ==> s.rewards_per_share <= u.rewards_per_share
            && s.last_block <= u.last_block && u.last_block <= event.block(),
{
    match event {
        Event::Deposit(e) => {
            advance_keeps_invariant(s, e.block_number as nat);
        },
        Event::Withdrawal(e) => {
            advance_keeps_invariant(s, e.block_number as nat);
        },
        Event::Transfer(e) => {
            advance_keeps_invariant(s, e.block_number as nat);
            withdraw_keeps_invariant(s, e.from, e.shares@, e.block_number as nat);
            if let Ok(t) = withdraw(s, e.from, e.shares@, e.block_number as nat) {
                advance_keeps_invariant(t, e.block_number as nat);
            }
        },
    }
}

/// Monotonicity over a whole history: between any two prefixes of a replay,
/// neither the accumulator nor the accounted block moves backwards.
pub proof fn replay_is_monotonic(s: LedgerView, events: Seq<Event>, m: nat, n: nat)
    requires
        ledger_wf(s),
        m <= n <= events.len(),
    ensures
        replay(s, events, n) matches Ok(u) ==> (replay(s, events, m) matches Ok(t)
            && t.rewards_per_share <= u.rewards_per_share && t.last_block <= u.last_block),
    decreases n,
{
    if m < n {
        replay_is_monotonic(s, events, m, (n - 1) as nat);
        replay_keeps_invariant(s, events, (n - 1) as nat);
        if let Ok(t) = replay(s, events, (n - 1) as nat) {
            apply_is_monotonic(t, events[n - 1]);
        }
    }
}

/// What the records would be owed with the accumulator projected to `block`
/// stays within what the blocks from `deployed` to `block` issue.
pub proof fn projection_keeps_issue(s: LedgerView, block: nat, deployed: nat)
    requires
        ledger_wf(s),
        within_issue(s, deployed),
        s.last_block <= block,
        s.total_shares > 0,
    ensures
        owed_sum(s.accounts, s.rewards_per_share + issued_per_share(s, block)) <= (block
            - deployed) * reward_per_block() * precision(),
{
    let elapsed = (block - s.last_block) as nat;
    let issue = elapsed * reward_per_block() * precision();
    let delta = issued_per_share(s, block);
    let total = s.total_shares;
    let past = (s.last_block - deployed) as nat;
    lemma_owed_raised(s.accounts, s.rewards_per_share, delta);
    assert(delta == issue / total);
    lemma_fundamental_div_mod(issue as int, total as int);
    lemma_mod_pos_bound(issue as int, total as int);
    assert(delta * total == total * delta) by (nonlinear_arith);
    assert(delta * total <= issue);
    assert(past * reward_per_block() * precision() + elapsed * reward_per_block() * precision()
        == (past + elapsed) * reward_per_block() * precision()) by (nonlinear_arith);
}

/// No over-issue, for the accumulator: bringing it up to a block keeps what
/// the records are owed within what the blocks since `deployed` have issued.
pub proof fn advance_keeps_issue(s: LedgerView, block: nat, deployed: nat)
    requires
        ledger_wf(s),
        within_issue(s, deployed),
    ensures
        advance(s, block) matches Ok(t) ==> within_issue(t, deployed),
{
    if !(block <= s.last_block || s.total_shares == 0) {
        projection_keeps_issue(s, block, deployed);
    }
}

/// Bounded loss, for the accumulator: an advance adds to what the records
/// are owed all that the elapsed blocks issue, but for less than one scaled
/// unit for each share staked.
pub proof fn advance_loses_less_than_one_per_share(s: LedgerView, block: nat)
    requires
        ledger_wf(s),
        s.last_block < block,
        s.total_shares > 0,
    ensures
        advance(s, block) matches Ok(t) ==> {
            let issue = (block - s.last_block) * reward_per_block() * precision();
            let before = owed_sum(s.accounts, s.rewards_per_share);
            let after = owed_sum(t.accounts, t.rewards_per_share);
            before + issue - s.total_shares < after <= before + issue
        },
{
    let elapsed = (block - s.last_block) as nat;
    let issue = elapsed * reward_per_block() * precision();
    let delta = issued_per_share(s, block);
    let total = s.total_shares;
    lemma_owed_raised(s.accounts, s.rewards_per_share, delta);
    assert(delta == issue / total);
    lemma_fundamental_div_mod(issue as int, total as int);
    lemma_mod_pos_bound(issue as int, total as int);
    assert(delta * total == total * delta) by (nonlinear_arith);
}

/// Bounded loss, for the previews: the previews of the first `n` accounts,
/// scaled up again, stay within what those accounts are owed with the
/// accumulator projected to `block`, and fall short of it by less than one
/// base unit for each account.
pub proof fn previews_within_owed(s: LedgerView, block: nat, n: nat)
    requires
        ledger_wf(s),
        n <= s.accounts.len(),
        s.total_shares > 0 ==> forall|i: int|
            0 <= i < s.accounts.len() ==> (#[trigger] s.accounts[i]).record.accumulated == 0,
    ensures
        total_rewards(s, block, n) matches Ok(sum) ==> {
            let owed = owed_sum(
                s.accounts.take(n as int),
                s.rewards_per_share + issued_per_share(s, block),
            );
            &&& s.last_block <= block
            &&& sum * precision() <= owed
            &&& owed <= sum * precision() + n * (precision() - 1)
        },
    decreases n,
{
    let projected = s.rewards_per_share + issued_per_share(s, block);
    if n == 0 {
        assert(0 * precision() == 0);
        assert(0 * (precision() - 1) == 0);
    } else {
        previews_within_owed(s, block, (n - 1) as nat);
        if let Ok(sum) = total_rewards(s, block, n) {
            let before = total_rewards(s, block, (n - 1) as nat)->Ok_0;
            let account = s.accounts[n - 1];
            let reward = preview(s, account.address, block)->Ok_0;
            lemma_index_of(s.accounts, n - 1);
            let r = account.record;
            assert(s.accounts.take(n as int).drop_last() =~= s.accounts.take(n - 1));
            assert(s.accounts.take(n as int).last() == account);
            let owed = settled(r, projected);
            if s.total_shares > 0 {
                assert(r.accumulated * precision() == 0) by (nonlinear_arith)
                    requires
                        r.accumulated == 0,
                ;
            }
            assert(reward == owed / precision());
            lemma_fundamental_div_mod(owed as int, precision() as int);
            lemma_mod_pos_bound(owed as int, precision() as int);
            assert(reward * precision() == precision() * reward) by (nonlinear_arith);
            assert((before + reward) * precision() == before * precision() + reward
                * precision()) by (nonlinear_arith);
            assert(n * (precision() - 1) == (n - 1) * (precision() - 1) + (precision() - 1))
                by (nonlinear_arith);
        }
    }
}

/// No over-issue, for the previews: where the ledger owes no more than was
/// issued, and no record carries a settled reward while shares are staked,
/// the sum of what all accounts have earned by `block` is at most the reward
/// of the blocks from `deployed` to `block`.
pub proof fn rewards_within_issue(s: LedgerView, block: nat, deployed: nat)
    requires
        ledger_wf(s),
        within_issue(s, deployed),
        s.total_shares > 0 ==> forall|i: int|
            0 <= i < s.accounts.len() ==> (#[trigger] s.accounts[i]).record.accumulated == 0,
    ensures
        total_rewards(s, block, s.accounts.len()) matches Ok(sum) ==> sum <= (block - deployed)
            * reward_per_block(),
{
    if let Ok(sum) = total_rewards(s, block, s.accounts.len()) {
        previews_within_owed(s, block, s.accounts.len());
        assert(s.accounts.take(s.accounts.len() as int) =~= s.accounts);
        let span = (block - deployed) as nat;
        let past = (s.last_block - deployed) as nat;
        if s.total_shares > 0 {
            projection_keeps_issue(s, block, deployed);
        } else {
            assert(past * reward_per_block() * precision() <= span * reward_per_block()
                * precision()) by (nonlinear_arith)
                requires
                    past <= span,
            ;
        }
        assert(sum <= span * reward_per_block()) by (nonlinear_arith)
            requires
                sum * precision() <= span * reward_per_block() * precision(),
                precision() > 0,
        ;
    }
}

/// No over-issue: whatever the event, the ledger afterwards owes its records
/// no more than what the blocks from `deployed` to the accounted block have
/// issued.
pub proof fn apply_keeps_issue(s: LedgerView, event: Event, deployed: nat)
    requires
        ledger_wf(s),
        within_issue(s, deployed),
    ensures
        apply(s, event) matches Ok(u) ==> within_issue(u, deployed),
{
    match event {
        Event::Deposit(e) => {
            deposit_keeps_issue(s, e.address, e.shares@, e.block_number as nat, deployed);
        },
        Event::Withdrawal(e) => {
            withdraw_keeps_issue(s, e.address, e.shares@, e.block_number as nat, deployed);
        },
        Event::Transfer(e) => {
            withdraw_keeps_issue(s, e.from, e.shares@, e.block_number as nat, deployed);
            withdraw_keeps_invariant(s, e.from, e.shares@, e.block_number as nat);
            if let Ok(t) = withdraw(s, e.from, e.shares@, e.block_number as nat) {
                deposit_keeps_issue(t, e.to, e.shares@, e.block_number as nat, deployed);
            }
        },
    }
}

/// No over-issue over a whole history.
pub proof fn replay_keeps_issue(s: LedgerView, events: Seq<Event>, n: nat, deployed: nat)
    requires
        ledger_wf(s),
        within_issue(s, deployed),
        n <= events.len(),
    ensures
        replay(s, events, n) matches Ok(u) ==> within_issue(u, deployed),
    decreases n,
{
    if n > 0 {
        replay_keeps_issue(s, events, (n - 1) as nat, deployed);
        replay_keeps_invariant(s, events, (n - 1) as nat);
        if let Ok(t) = replay(s, events, (n - 1) as nat) {
            apply_keeps_issue(t, events[n - 1], deployed);
        }
    }
}

/// A deposit settles what its account has earned and so changes nothing in
/// what the records are owed together, once the accumulator is brought up to
/// the deposit's block.
pub proof fn deposit_keeps_owed(s: LedgerView, address: Address, shares: nat, block: nat)
    requires
        ledger_wf(s),
    ensures
        deposit(s, address, shares, block) matches Ok(u) ==> (advance(s, block) matches Ok(t)
            && u.rewards_per_share == t.rewards_per_share && u.last_block == t.last_block
            && owed_sum(u.accounts, u.rewards_per_share) == owed_sum(
            t.accounts,
            t.rewards_per_share,
        )),
{
    if let Ok(u) = deposit(s, address, shares, block) {
        advance_keeps_invariant(s, block);
        let t = advance(s, block)->Ok_0;
        if has_account(t.accounts, address) {
            let i = index_of(t.accounts, address);
            lemma_owed_update(t.accounts, i, u.accounts[i], t.rewards_per_share);
            assert(0 * u.accounts[i].record.shares == 0);
        } else {
            lemma_owed_push(t.accounts, u.accounts.last(), t.rewards_per_share);
            assert(0 * shares == 0);
        }
    }
}

/// A withdrawal settles what its account has earned and so changes nothing
/// in what the records are owed together, once the accumulator is brought up
/// to the withdrawal's block.
pub proof fn withdraw_keeps_owed(s: LedgerView, address: Address, shares: nat, block: nat)
    requires
        ledger_wf(s),
    ensures
        withdraw(s, address, shares, block) matches Ok(u) ==> (advance(s, block) matches Ok(t)
            && u.rewards_per_share == t.rewards_per_share && u.last_block == t.last_block
            && owed_sum(u.accounts, u.rewards_per_share) == owed_sum(
            t.accounts,
            t.rewards_per_share,
        )),
{
    if let Ok(u) = withdraw(s, address, shares, block) {
        advance_keeps_invariant(s, block);
        let t = advance(s, block)->Ok_0;
        let i = index_of(t.accounts, address);
        lemma_owed_update(t.accounts, i, u.accounts[i], t.rewards_per_share);
        assert(0 * u.accounts[i].record.shares == 0);
    }
}

/// A deposit keeps what the records are owed within what was issued.
pub proof fn deposit_keeps_issue(
    s: LedgerView,
    address: Address,
    shares: nat,
    block: nat,
    deployed: nat,
)
    requires
        ledger_wf(s),
        within_issue(s, deployed),
    ensures
        deposit(s, address, shares, block) matches Ok(u) ==> within_issue(u, deployed),
{
    advance_keeps_issue(s, block, deployed);
    deposit_keeps_owed(s, address, shares, block);
}

/// A withdrawal keeps what the records are owed within what was issued.
pub proof fn withdraw_keeps_issue(
    s: LedgerView,
    address: Address,
    shares: nat,
    block: nat,
    deployed: nat,
)
    requires
        ledger_wf(s),
        within_issue(s, deployed),
    ensures
        withdraw(s, address, shares, block) matches Ok(u) ==> within_issue(u, deployed),
{
    advance_keeps_issue(s, block, deployed);
    withdraw_keeps_owed(s, address, shares, block);
}

/// Whether the step from `s` to `u` added to what the records are owed all
/// that the blocks between the two issue, but for at most `allowance` scaled
/// units.
pub open spec fn issued_but_for(s: LedgerView, u: LedgerView, allowance: nat) -> bool {
    &&& s.last_block <= u.last_block
    &&& owed_sum(s.accounts, s.rewards_per_share) + (u.last_block - s.last_block)
        * reward_per_block() * precision() <= owed_sum(u.accounts, u.rewards_per_share)
        + allowance
}

/// Bounded loss, for the accumulator: see
/// `advance_loses_less_than_one_per_share`. This form holds of every advance,
/// also of one that changes nothing.
pub proof fn advance_issues_but_for_rounding(s: LedgerView, block: nat)
    requires
        ledger_wf(s),
    ensures
        advance(s, block) matches Ok(t) ==> issued_but_for(s, t, s.total_shares),
{
    if !(block <= s.last_block || s.total_shares == 0) {
        advance_loses_less_than_one_per_share(s, block);
    } else {
        assert(0 * reward_per_block() * precision() == 0) by (nonlinear_arith);
    }
}

/// Bounded loss, for one event: the event adds to what the records are owed
/// all that the blocks up to it issue, but for at most one scaled unit for
/// each share staked before it.
pub proof fn apply_issues_but_for_rounding(s: LedgerView, event: Event)
    requires
        ledger_wf(s),
    ensures
        apply(s, event) matches Ok(u) ==> issued_but_for(s, u, s.total_shares),
{
    match event {
        Event::Deposit(e) => {
            advance_issues_but_for_rounding(s, e.block_number as nat);
            deposit_keeps_owed(s, e.address, e.shares@, e.block_number as nat);
        },
        Event::Withdrawal(e) => {
            advance_issues_but_for_rounding(s, e.block_number as nat);
            withdraw_keeps_owed(s, e.address, e.shares@, e.block_number as nat);
        },
        Event::Transfer(e) => {
            let block = e.block_number as nat;
            advance_issues_but_for_rounding(s, block);
            advance_keeps_invariant(s, block);
            withdraw_keeps_owed(s, e.from, e.shares@, block);
            withdraw_keeps_invariant(s, e.from, e.shares@, block);
            if let Ok(w) = withdraw(s, e.from, e.shares@, block) {
                let a = advance(s, block)->Ok_0;
                lemma_sum_bounds(a.accounts, index_of(a.accounts, e.from));
                assert(advance(w, block) == Ok::<LedgerView, RewardError>(w));
                deposit_keeps_owed(w, e.to, e.shares@, block);
            }
        },
    }
}

/// Bounded loss over a whole history: the first `n` events add to what the
/// records are owed all that the blocks up to the accounted block issue, but
/// for at most the history's rounding allowance.
pub proof fn replay_issues_but_for_rounding(s: LedgerView, events: Seq<Event>, n: nat)
    requires
        ledger_wf(s),
        n <= events.len(),
    ensures
        replay(s, events, n) matches Ok(u) ==> issued_but_for(
            s,
            u,
            rounding_allowance(s, events, n),
        ),
    decreases n,
{
    if n == 0 {
        assert(0 * reward_per_block() * precision() == 0) by (nonlinear_arith);
    } else {
        replay_issues_but_for_rounding(s, events, (n - 1) as nat);
        replay_keeps_invariant(s, events, (n - 1) as nat);
        if let Ok(u) = replay(s, events, n) {
            let t = replay(s, events, (n - 1) as nat)->Ok_0;
            apply_issues_but_for_rounding(t, events[n - 1]);
            let first = (t.last_block - s.last_block) as nat;
            let second = (u.last_block - t.last_block) as nat;
            assert(first * reward_per_block() * precision() + second * reward_per_block()
                * precision() == (first + second) * reward_per_block() * precision())
                by (nonlinear_arith);
        }
    }
}

/// A history of first deposits gives each event's account a record of its
/// own, in the order of the events, and settles nothing.
pub proof fn first_deposits_settle_nothing(events: Seq<Event>, n: nat, deployed: nat)
    requires
        first_deposits(events),
        n <= events.len(),
    ensures
        replay(empty_ledger(deployed), events, n) matches Ok(u) ==> u.accounts.len() == n
            && forall|i: int|
            0 <= i < n ==> (#[trigger] u.accounts[i]).address == events[i]->Deposit_0.address
                && u.accounts[i].record.accumulated == 0,
    decreases n,
{
    if n > 0 {
        first_deposits_settle_nothing(events, (n - 1) as nat, deployed);
        if let Ok(u) = replay(empty_ledger(deployed), events, n) {
            let t = replay(empty_ledger(deployed), events, (n - 1) as nat)->Ok_0;
            let e = events[n - 1]->Deposit_0;
            assert(events[n - 1] is Deposit);
            let a = advance(t, e.block_number as nat)->Ok_0;
            assert(a.accounts == t.accounts);
            if has_account(a.accounts, e.address) {
                let i = index_of(a.accounts, e.address);
                assert(a.accounts[i].address == events[i]->Deposit_0.address);
                assert(events[i]->Deposit_0.address != events[n - 1]->Deposit_0.address);
            }
            assert forall|i: int| 0 <= i < n implies (#[trigger] u.accounts[i]).address
                == events[i]->Deposit_0.address && u.accounts[i].record.accumulated == 0 by {
                if i < n - 1 {
                    assert(u.accounts[i] == t.accounts[i]);
                }
            }
        }
    }
}

/// Deposit-only fairness, from above: after a history of first deposits
/// into the ledger of a vault deployed in `deployed`, the accounts together
/// have earned by `block` at most the reward of the blocks from `deployed`
/// to `block`.
pub proof fn first_deposits_share_within_issue(events: Seq<Event>, block: nat, deployed: nat)
    requires
        first_deposits(events),
    ensures
        replay(empty_ledger(deployed), events, events.len()) matches Ok(u) ==> (total_rewards(
            u,
            block,
            u.accounts.len(),
        ) matches Ok(sum) ==> sum <= (block - deployed) * reward_per_block()),
{
    let s = empty_ledger(deployed);
    assert(0 * reward_per_block() * precision() == 0) by (nonlinear_arith);
    assert(ledger_wf(s) && within_issue(s, deployed));
    first_deposits_settle_nothing(events, events.len(), deployed);
    replay_keeps_invariant(s, events, events.len());
    replay_keeps_issue(s, events, events.len(), deployed);
    if let Ok(u) = replay(s, events, events.len()) {
        rewards_within_issue(u, block, deployed);
    }
}

/// Deposit-only fairness, from below: after a history of first deposits
/// into the ledger of a vault deployed in `deployed` that leaves shares
/// staked, the accounts together have earned by `block` all that the blocks
/// from `deployed` to `block` issue, but for what rounding took: at most the
/// history's rounding allowance and one scaled unit for each share staked,
/// and less than one base unit for each account.
pub proof fn first_deposits_share_all_but_rounding(
    events: Seq<Event>,
    block: nat,
    deployed: nat,
)
    requires
        first_deposits(events),
    ensures
        replay(empty_ledger(deployed), events, events.len()) matches Ok(u) ==> (total_rewards(
            u,
            block,
            u.accounts.len(),
        ) matches Ok(sum) ==> u.total_shares > 0 ==> (block - deployed) * reward_per_block()
            * precision() <= sum * precision() + u.accounts.len() * (precision() - 1)
            + u.total_shares + rounding_allowance(empty_ledger(deployed), events, events.len())),
{
    let s = empty_ledger(deployed);
    assert(ledger_wf(s));
    first_deposits_settle_nothing(events, events.len(), deployed);
    replay_keeps_invariant(s, events, events.len());
    replay_issues_but_for_rounding(s, events, events.len());
    if let Ok(u) = replay(s, events, events.len()) {
        if let Ok(sum) = total_rewards(u, block, u.accounts.len()) {
            if u.total_shares > 0 {
                previews_within_owed(u, block, u.accounts.len());
                assert(u.accounts.take(u.accounts.len() as int) =~= u.accounts);
                let projected = u.rewards_per_share + issued_per_share(u, block);
                if u.last_block < block {
                    if u.accounts.len() > 0 {
                        lemma_index_of(u.accounts, 0);
                        assert(preview(u, u.accounts[0].address, block) is Ok) by {
                            lemma_total_rewards_refused(u, block, 1, u.accounts.len());
                        }
                        assert(projected < limit());
                    }
                    assert(u.accounts.len() > 0) by {
                        if u.accounts.len() == 0 {
                            assert(staked_sum(u.accounts) == 0);
                        }
                    }
                    advance_loses_less_than_one_per_share(u, block);
                } else {
                    assert(0 * reward_per_block() * precision() == 0) by (nonlinear_arith);
                    assert(issued_per_share(u, block) == 0);
                }
                let first = (u.last_block - deployed) as nat;
                let second = (block - u.last_block) as nat;
                assert(first * reward_per_block() * precision() + second * reward_per_block()
                    * precision() == (first + second) * reward_per_block() * precision())
                    by (nonlinear_arith);
            }
        }
    }
}

/// Idempotence: the ledger, the account and the block decide what a preview
/// answers, so two previews of one ledger for the same account and block
/// give the same answer. (A preview takes the ledger by shared reference and
/// cannot change it.)
pub proof fn preview_is_repeatable(
    s: LedgerView,
    user: Address,
    block: nat,
    first: Result<Amount, RewardError>,
    second: Result<Amount, RewardError>,
)
    requires
        match first {
            Ok(v) => preview(s, user, block) == Ok::<nat, RewardError>(v@),
            Err(e) => preview(s, user, block) == Err::<nat, RewardError>(e),
        },
        match second {
            Ok(v) => preview(s, user, block) == Ok::<nat, RewardError>(v@),
            Err(e) => preview(s, user, block) == Err::<nat, RewardError>(e),
        },
    ensures
        first == second,
{
    if let Ok(v) = first {
        lemma_value_decides_amount(v, second->Ok_0);
    }
}

/// Transfer equivalence: a transfer leaves the ledger exactly as the
/// withdrawal from the sender followed by the deposit for the receiver does,
/// both in the transfer's block, and is refused exactly when one of the two
/// is.
pub proof fn transfer_is_withdraw_then_deposit(s: LedgerView, t: Transfer)
    ensures
        apply(s, Event::Transfer(t)) == match apply(
            s,
            Event::Withdrawal(
                Withdraw { address: t.from, shares: t.shares, block_number: t.block_number },
            ),
        ) {
            Err(e) => Err(e),
            Ok(u) => apply(
                u,
                Event::Deposit(
                    Deposit { address: t.to, shares: t.shares, block_number: t.block_number },
                ),
            ),
        },
{
}

/// A transfer leaves the total of the shares staked unchanged.
pub proof fn transfer_keeps_total(s: LedgerView, t: Transfer)
    requires
        ledger_wf(s),
    ensures
        apply(s, Event::Transfer(t)) matches Ok(u) ==> u.total_shares == s.total_shares,
{
    let block = t.block_number as nat;
    advance_keeps_invariant(s, block);
    withdraw_keeps_invariant(s, t.from, t.shares@, block);
    if let Ok(w) = withdraw(s, t.from, t.shares@, block) {
        let a = advance(s, block)->Ok_0;
        lemma_sum_bounds(a.accounts, index_of(a.accounts, t.from));
        advance_keeps_invariant(w, block);
    }
}

} // verus!
