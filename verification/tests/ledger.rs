use ethers::types::H160;
use ethers::utils::parse_ether;
use vault_rewards::{
    Address, Amount, Deposit, Event, GlobalState, ReplayError, RewardError, Transfer, Withdraw,
    BLOCK_CONTRACT_DEPLOYED,
};

const BOB: &str = "0x0000000000000000000000000000000000000B0b";
const ALICE: &str = "0x00000000000000000000000000000000000A11cE";
const D: u64 = BLOCK_CONTRACT_DEPLOYED;

fn address(text: &str) -> Address {
    let parsed: H160 = text.parse().unwrap();
    let bytes = parsed.0;
    let mut low = [0u8; 16];
    low.copy_from_slice(&bytes[4..20]);
    Address {
        hi: u32::from_be_bytes([bytes[0], bytes[1], bytes[2], bytes[3]]),
        lo: u128::from_be_bytes(low),
    }
}

fn ether(text: &str) -> Amount {
    Amount { limbs: parse_ether(text).unwrap().0 }
}

fn wei(value: u128) -> Amount {
    Amount { limbs: [value as u64, (value >> 64) as u64, 0, 0] }
}

fn deposit(who: &str, shares: Amount, block_number: u64) -> Event {
    Event::Deposit(Deposit { address: address(who), shares, block_number })
}

fn withdrawal(who: &str, shares: Amount, block_number: u64) -> Event {
    Event::Withdrawal(Withdraw { address: address(who), shares, block_number })
}

fn transfer(from: &str, to: &str, shares: Amount, block_number: u64) -> Event {
    Event::Transfer(Transfer { from: address(from), to: address(to), shares, block_number })
}

fn create_events() -> Vec<Event> {
    let evt_one = Event::Deposit(Deposit {
        address: address(BOB),
        shares: ether("1"),
        block_number: BLOCK_CONTRACT_DEPLOYED,
    });

    let evt_two = Event::Deposit(Deposit {
        address: address(ALICE),
        shares: ether("1"),
        block_number: BLOCK_CONTRACT_DEPLOYED + 100,
    });

    vec![evt_one, evt_two]
}

fn staked_sum(state: &GlobalState, accounts: &[&str]) -> Amount {
    let mut sum = wei(0);
    for who in accounts {
        if let Some(record) = state.user_record(address(who)) {
            sum = sum.checked_add(record.shares_staked).unwrap();
        }
    }
    sum
}

#[test]
fn distributes_rewards_correctly() {
    let events = create_events();

    let mut global_state = GlobalState::new();

    global_state.process_events(events).unwrap();

    let block_number = BLOCK_CONTRACT_DEPLOYED + 100;

    let bob_rewards = global_state.preview_user_rewards(address(BOB), block_number).unwrap();
    let alice_rewards = global_state.preview_user_rewards(address(ALICE), block_number).unwrap();

    assert_eq!(bob_rewards, ether("100"));
    assert_eq!(alice_rewards, ether("0"));

    let all_rewards = global_state.get_all_rewards(block_number).unwrap();
    assert_eq!(all_rewards, ether("100"));
}

#[test]
fn new_ledger_is_empty_at_the_deployment_block() {
    let state = GlobalState::new();
    assert_eq!(state.last_accounted_block(), 17564663);
    assert_eq!(state.total_shares_staked(), wei(0));
    assert_eq!(state.total_rewards_per_share(), wei(0));
    assert_eq!(state.user_record(address(BOB)), None);
    assert_eq!(state.preview_user_rewards(address(BOB), D), Ok(wei(0)));
    assert_eq!(state.get_all_rewards(D), Ok(wei(0)));
    assert_eq!(state.get_user_rewards(D), Ok(vec![]));
}

#[test]
fn total_is_the_sum_of_the_records_after_every_event() {
    let events = vec![
        deposit(BOB, ether("3"), D),
        deposit(ALICE, ether("2"), D + 5),
        withdrawal(BOB, ether("1"), D + 7),
        transfer(ALICE, BOB, wei(12345), D + 7),
        deposit(ALICE, wei(1), D + 9),
        withdrawal(ALICE, ether("1"), D + 20),
    ];
    let mut state = GlobalState::new();
    for event in events {
        state.process_events(vec![event]).unwrap();
        assert_eq!(state.total_shares_staked(), staked_sum(&state, &[BOB, ALICE]));
    }
    assert_eq!(state.total_shares_staked(), ether("3").checked_add(wei(1)).unwrap());
}

#[test]
fn accumulator_and_block_never_move_backwards() {
    let events = vec![
        deposit(BOB, ether("3"), D + 1),
        deposit(ALICE, ether("2"), D + 5),
        withdrawal(BOB, ether("3"), D + 5),
        withdrawal(ALICE, ether("2"), D + 8),
        deposit(ALICE, ether("1"), D + 30),
        transfer(ALICE, BOB, ether("1"), D + 31),
    ];
    let mut state = GlobalState::new();
    for event in events {
        let rewards_before = state.total_rewards_per_share();
        let block_before = state.last_accounted_block();
        state.process_events(vec![event]).unwrap();
        assert!(!state.total_rewards_per_share().less_than(&rewards_before));
        assert!(state.last_accounted_block() >= block_before);
        assert!(state.last_accounted_block() <= event.block_number());
    }
    assert_eq!(state.last_accounted_block(), D + 31);
}

#[test]
fn accumulator_advance_scales_by_the_total_stake() {
    let mut state = GlobalState::new();
    state.process_deposit(Deposit { address: address(BOB), shares: ether("4"), block_number: D })
        .unwrap();
    assert_eq!(state.last_accounted_block(), D);
    assert_eq!(state.distribute_rewards(D + 10), Ok(()));
    // 10 blocks * 1e18 * 1e18 / 4e18
    assert_eq!(state.total_rewards_per_share(), wei(2_500_000_000_000_000_000));
    assert_eq!(state.last_accounted_block(), D + 10);
    assert_eq!(state.distribute_rewards(D + 10), Ok(()));
    assert_eq!(state.distribute_rewards(D + 3), Ok(()));
    assert_eq!(state.total_rewards_per_share(), wei(2_500_000_000_000_000_000));
    assert_eq!(state.last_accounted_block(), D + 10);
}

#[test]
fn accumulator_advance_does_nothing_while_nothing_is_staked() {
    let mut state = GlobalState::new();
    assert_eq!(state.distribute_rewards(D + 1000), Ok(()));
    assert_eq!(state.last_accounted_block(), D);
    assert_eq!(state.total_rewards_per_share(), wei(0));
}

#[test]
fn deposits_only_share_the_issue_in_proportion() {
    let mut state = GlobalState::new();
    state
        .process_events(vec![deposit(BOB, ether("1"), D), deposit(ALICE, ether("3"), D + 100)])
        .unwrap();
    let bob = state.preview_user_rewards(address(BOB), D + 200).unwrap();
    let alice = state.preview_user_rewards(address(ALICE), D + 200).unwrap();
    assert_eq!(bob, ether("125"));
    assert_eq!(alice, ether("75"));
    assert_eq!(state.get_all_rewards(D + 200), Ok(ether("200")));
}

#[test]
fn division_loss_stays_below_one_unit_per_account() {
    let mut state = GlobalState::new();
    state
        .process_events(vec![
            deposit(BOB, wei(1), D),
            deposit(ALICE, wei(2), D),
        ])
        .unwrap();
    let bob = state.preview_user_rewards(address(BOB), D + 1).unwrap();
    let alice = state.preview_user_rewards(address(ALICE), D + 1).unwrap();
    // 1e36 / 3 per share, rounded down, then descaled
    assert_eq!(bob, wei(333_333_333_333_333_333));
    assert_eq!(alice, wei(666_666_666_666_666_666));
    assert_eq!(state.get_all_rewards(D + 1), Ok(wei(999_999_999_999_999_999)));
}

#[test]
fn preview_is_repeatable_and_changes_nothing() {
    let mut state = GlobalState::new();
    state
        .process_events(vec![deposit(BOB, ether("1"), D), deposit(ALICE, ether("3"), D + 100)])
        .unwrap();
    let total = state.total_shares_staked();
    let rewards = state.total_rewards_per_share();
    let block = state.last_accounted_block();
    let record = state.user_record(address(BOB));
    let first = state.preview_user_rewards(address(BOB), D + 150);
    let second = state.preview_user_rewards(address(BOB), D + 150);
    assert_eq!(first, second);
    assert_eq!(first, Ok(wei(112_500_000_000_000_000_000)));
    assert_eq!(state.get_all_rewards(D + 150), state.get_all_rewards(D + 150));
    assert_eq!(state.get_user_rewards(D + 150), state.get_user_rewards(D + 150));
    assert_eq!(state.total_shares_staked(), total);
    assert_eq!(state.total_rewards_per_share(), rewards);
    assert_eq!(state.last_accounted_block(), block);
    assert_eq!(state.user_record(address(BOB)), record);
}

#[test]
fn transfer_equals_withdrawal_then_deposit() {
    let history = vec![deposit(BOB, ether("5"), D), deposit(ALICE, ether("1"), D + 10)];
    let mut moved = GlobalState::new();
    moved.process_events(history.clone()).unwrap();
    let mut split = GlobalState::new();
    split.process_events(history).unwrap();

    moved.process_events(vec![transfer(BOB, ALICE, ether("2"), D + 40)]).unwrap();
    split
        .process_events(vec![
            withdrawal(BOB, ether("2"), D + 40),
            deposit(ALICE, ether("2"), D + 40),
        ])
        .unwrap();

    assert_eq!(moved.total_shares_staked(), split.total_shares_staked());
    assert_eq!(moved.total_shares_staked(), ether("6"));
    assert_eq!(moved.total_rewards_per_share(), split.total_rewards_per_share());
    assert_eq!(moved.last_accounted_block(), split.last_accounted_block());
    assert_eq!(moved.user_record(address(BOB)), split.user_record(address(BOB)));
    assert_eq!(moved.user_record(address(ALICE)), split.user_record(address(ALICE)));
    assert_eq!(moved.user_record(address(BOB)).unwrap().shares_staked, ether("3"));
    assert_eq!(moved.user_record(address(ALICE)).unwrap().shares_staked, ether("3"));
    assert_eq!(moved.get_user_rewards(D + 50), split.get_user_rewards(D + 50));
}

#[test]
fn transfer_to_a_new_account_creates_its_record() {
    let mut state = GlobalState::new();
    state
        .process_events(vec![
            deposit(BOB, ether("2"), D),
            transfer(BOB, ALICE, ether("1"), D + 10),
        ])
        .unwrap();
    let alice = state.user_record(address(ALICE)).unwrap();
    assert_eq!(alice.shares_staked, ether("1"));
    assert_eq!(alice.rewards_accumulated, wei(0));
    assert_eq!(alice.rewards_per_share_snapshot, ether("5"));
    assert_eq!(state.total_shares_staked(), ether("2"));
}

#[test]
fn failed_transfer_leaves_the_ledger_as_it_was() {
    let mut state = GlobalState::new();
    state.process_events(vec![deposit(BOB, ether("2"), D)]).unwrap();
    let record = state.user_record(address(BOB));
    let refused = state.process_transfer(Transfer {
        from: address(BOB),
        to: address(ALICE),
        shares: ether("3"),
        block_number: D + 10,
    });
    assert_eq!(refused, Err(RewardError::InsufficientStake));
    assert_eq!(state.user_record(address(BOB)), record);
    assert_eq!(state.user_record(address(ALICE)), None);
    assert_eq!(state.last_accounted_block(), D);
    assert_eq!(state.total_rewards_per_share(), wei(0));
    assert_eq!(state.total_shares_staked(), ether("2"));
}

#[test]
fn settled_reward_survives_a_full_withdrawal() {
    let mut state = GlobalState::new();
    state
        .process_events(vec![deposit(BOB, ether("1"), D), withdrawal(BOB, ether("1"), D + 50)])
        .unwrap();
    let record = state.user_record(address(BOB)).unwrap();
    assert_eq!(record.shares_staked, wei(0));
    assert_eq!(record.rewards_per_share_snapshot, ether("50"));
    // 50e18 per share times 1e18 shares
    let settled = ether("50").checked_mul(ether("1")).unwrap();
    assert_eq!(record.rewards_accumulated, settled);
    assert_eq!(state.total_shares_staked(), wei(0));
    // nothing staked: the settled reward is descaled
    assert_eq!(state.preview_user_rewards(address(BOB), D + 100), Ok(ether("50")));

    state.process_events(vec![deposit(BOB, ether("1"), D + 150)]).unwrap();
    // nothing was staked from D+50 on, so the accounted block stayed there
    assert_eq!(state.last_accounted_block(), D + 50);
    let record = state.user_record(address(BOB)).unwrap();
    assert_eq!(record.rewards_accumulated, settled);
    assert_eq!(record.shares_staked, ether("1"));

    // something staked: 150 blocks are projected, and the settled reward is
    // scaled up before the sum is descaled
    let fresh = ether("150").checked_mul(ether("1")).unwrap();
    let carried = settled.checked_mul(ether("1")).unwrap();
    let expected = fresh.checked_add(carried).unwrap().checked_div(ether("1")).unwrap();
    let reward = state.preview_user_rewards(address(BOB), D + 200).unwrap();
    assert_eq!(reward, expected);
    assert_eq!(reward, settled.checked_add(ether("150")).unwrap());
    assert!(!reward.less_than(&ether("150")));
    assert!(!reward.less_than(&settled));
}

#[test]
fn zero_stake_record_is_previewed_without_division() {
    let mut state = GlobalState::new();
    state
        .process_events(vec![
            deposit(BOB, ether("1"), D),
            deposit(ALICE, ether("1"), D),
            withdrawal(BOB, ether("1"), D + 10),
        ])
        .unwrap();
    // BOB earned 5 units in 10 blocks; settled and scaled up when previewed
    let settled = ether("5").checked_mul(ether("1")).unwrap();
    assert_eq!(state.user_record(address(BOB)).unwrap().rewards_accumulated, settled);
    assert_eq!(state.preview_user_rewards(address(BOB), D + 10), Ok(settled));
    assert_eq!(state.preview_user_rewards(address(ALICE), D + 10), Ok(ether("5")));
}

#[test]
fn event_before_the_accounted_block_is_out_of_order() {
    let mut state = GlobalState::new();
    let outcome = state.process_events(vec![
        deposit(BOB, ether("1"), D),
        deposit(ALICE, ether("1"), D + 10),
        deposit(BOB, ether("1"), D + 5),
    ]);
    assert_eq!(outcome, Err(ReplayError { index: 2, reason: RewardError::OutOfOrder }));
    assert_eq!(state.total_shares_staked(), ether("2"));
    assert_eq!(state.last_accounted_block(), D + 10);
    let mut early = GlobalState::new();
    assert_eq!(
        early.process_events(vec![withdrawal(BOB, ether("1"), D - 1)]),
        Err(ReplayError { index: 0, reason: RewardError::OutOfOrder })
    );
}

#[test]
fn withdrawal_without_a_record_is_refused() {
    let mut state = GlobalState::new();
    let outcome = state
        .process_events(vec![deposit(BOB, ether("1"), D), withdrawal(ALICE, wei(1), D + 3)]);
    assert_eq!(outcome, Err(ReplayError { index: 1, reason: RewardError::UnknownAccount }));
    assert_eq!(state.last_accounted_block(), D);
    assert_eq!(state.total_rewards_per_share(), wei(0));
    assert_eq!(state.total_shares_staked(), ether("1"));
}

#[test]
fn withdrawal_beyond_the_stake_is_refused() {
    let mut state = GlobalState::new();
    state.process_events(vec![deposit(BOB, ether("1"), D)]).unwrap();
    let record = state.user_record(address(BOB));
    let outcome = state.process_withdraw(Withdraw {
        address: address(BOB),
        shares: ether("1").checked_add(wei(1)).unwrap(),
        block_number: D + 3,
    });
    assert_eq!(outcome, Err(RewardError::InsufficientStake));
    assert_eq!(state.user_record(address(BOB)), record);
    assert_eq!(state.last_accounted_block(), D);
    assert_eq!(state.total_shares_staked(), ether("1"));
}

#[test]
fn total_beyond_256_bits_is_an_overflow() {
    let largest = Amount { limbs: [u64::MAX; 4] };
    let mut state = GlobalState::new();
    state.process_events(vec![deposit(BOB, largest, D)]).unwrap();
    let outcome = state.process_deposit(Deposit {
        address: address(ALICE),
        shares: wei(1),
        block_number: D,
    });
    assert_eq!(outcome, Err(RewardError::Overflow));
    assert_eq!(state.user_record(address(ALICE)), None);
    assert_eq!(state.total_shares_staked(), largest);
}

#[test]
fn huge_stakes_are_accounted_exactly() {
    let huge = Amount { limbs: [0, 0, 0, 1 << 62] };
    let mut state = GlobalState::new();
    state
        .process_events(vec![deposit(BOB, wei(1), D), deposit(ALICE, huge, D + 1)])
        .unwrap();
    // one block issued 1e18 base units, scaled by 1e18, to a single share
    assert_eq!(state.total_rewards_per_share(), ether("1").checked_mul(ether("1")).unwrap());
    state.process_events(vec![withdrawal(ALICE, huge, D + 1)]).unwrap();
    state.process_events(vec![deposit(ALICE, huge, D + 2)]).unwrap();
    assert_eq!(state.total_rewards_per_share(), ether("2").checked_mul(ether("1")).unwrap());
    assert_eq!(state.preview_user_rewards(address(BOB), D + 2), Ok(ether("2")));
    assert_eq!(state.preview_user_rewards(address(ALICE), D + 2), Ok(wei(0)));
    assert_eq!(state.get_all_rewards(D + 2), Ok(ether("2")));
    // from here on a block issues less than one scaled unit per share
    assert_eq!(state.preview_user_rewards(address(ALICE), D + 3), Ok(wei(0)));
}

#[test]
fn query_before_the_accounted_block_is_refused() {
    let mut state = GlobalState::new();
    state
        .process_events(vec![deposit(BOB, ether("1"), D), deposit(ALICE, ether("1"), D + 10)])
        .unwrap();
    assert_eq!(
        state.preview_user_rewards(address(BOB), D + 9),
        Err(RewardError::EarlyEvaluation)
    );
    assert_eq!(state.get_all_rewards(D + 9), Err(RewardError::EarlyEvaluation));
    assert_eq!(state.get_user_rewards(D + 9), Err(RewardError::EarlyEvaluation));
    assert_eq!(state.preview_user_rewards(address(BOB), D + 10), Ok(ether("10")));
}

#[test]
fn user_rewards_are_ranked_and_leave_out_zero() {
    let carol = "0x00000000000000000000000000000000000Ca401";
    let mut state = GlobalState::new();
    state
        .process_events(vec![
            deposit(ALICE, ether("1"), D),
            deposit(BOB, ether("1"), D),
            deposit(carol, ether("2"), D),
            deposit("0x1000000000000000000000000000000000000001", ether("1"), D + 8),
        ])
        .unwrap();
    let ranked = state.get_user_rewards(D + 8).unwrap();
    assert_eq!(
        ranked,
        vec![
            (address(carol), ether("4")),
            (address(BOB), ether("2")),
            (address(ALICE), ether("2")),
        ]
    );
    assert_eq!(state.get_all_rewards(D + 8), Ok(ether("8")));
}

#[test]
fn addresses_are_ordered_as_integers() {
    let low = Address { hi: 0, lo: u128::MAX };
    let high = Address { hi: 1, lo: 0 };
    assert!(low.is_before(&high));
    assert!(!high.is_before(&low));
    assert!(!low.is_before(&low));
    assert!(address(BOB).is_before(&address(ALICE)));
    assert_eq!(address(BOB), Address { hi: 0, lo: 0xB0b });
}

#[test]
fn amounts_follow_256_bit_arithmetic() {
    let two_64 = Amount { limbs: [0, 1, 0, 0] };
    assert_eq!(wei(u64::MAX as u128).checked_add(wei(1)), Some(two_64));
    assert_eq!(two_64.checked_sub(wei(1)), Some(wei(u64::MAX as u128)));
    assert_eq!(wei(1).checked_sub(wei(2)), None);
    assert_eq!(two_64.checked_mul(two_64), Some(Amount { limbs: [0, 0, 1, 0] }));
    assert_eq!(wei(7).checked_mul(wei(6)), Some(wei(42)));
    assert_eq!(wei(43).checked_div(wei(6)), Some(wei(7)));
    assert_eq!(wei(43).checked_div(wei(0)), None);
    let largest = Amount { limbs: [u64::MAX; 4] };
    assert_eq!(largest.checked_add(wei(1)), None);
    assert_eq!(largest.checked_mul(wei(2)), None);
    assert_eq!(Amount { limbs: [0, 0, 0, 1] }.checked_mul(two_64), None);
    assert!(wei(3).less_than(&wei(4)));
    assert!(!wei(4).less_than(&wei(4)));
    assert!(wei(u64::MAX as u128).less_than(&two_64));
    assert!(!two_64.less_than(&wei(u64::MAX as u128)));
    assert_eq!(wei(9).sum(wei(9)), wei(18));
    assert_eq!(wei(9).product(wei(9)), wei(81));
    assert_eq!(wei(9).difference(wei(4)), wei(5));
    assert_eq!(wei(9).quotient(wei(4)), wei(2));
    assert!(wei(0).is_zero());
    assert!(!two_64.is_zero());
    assert_eq!(Amount::from_u64(5), wei(5));
}

#[test]
fn ether_is_ten_to_the_eighteen_base_units() {
    assert_eq!(Amount::ether(1), wei(1_000_000_000_000_000_000));
    assert_eq!(Amount::ether(0), wei(0));
    assert_eq!(Amount::ether(250), wei(250_000_000_000_000_000_000));
    assert_eq!(Amount::ether(3), ether("3"));
    assert_eq!(
        Amount::ether(u64::MAX),
        wei(u64::MAX as u128 * 1_000_000_000_000_000_000)
    );
}

#[test]
fn events_are_sorted_by_block_and_keep_their_order_within_a_block() {
    let events = vec![
        deposit(BOB, wei(1), D + 7),
        withdrawal(BOB, wei(2), D + 3),
        deposit(ALICE, wei(3), D + 7),
        transfer(BOB, ALICE, wei(4), D),
        deposit(ALICE, wei(5), D + 3),
        withdrawal(ALICE, wei(6), D + 7),
    ];
    let sorted = vault_rewards::sort_events(events);
    assert_eq!(
        sorted,
        vec![
            transfer(BOB, ALICE, wei(4), D),
            withdrawal(BOB, wei(2), D + 3),
            deposit(ALICE, wei(5), D + 3),
            deposit(BOB, wei(1), D + 7),
            deposit(ALICE, wei(3), D + 7),
            withdrawal(ALICE, wei(6), D + 7),
        ]
    );
    assert_eq!(vault_rewards::sort_events(vec![]), vec![]);
}

#[test]
fn sorted_history_replays_where_the_unsorted_one_is_refused() {
    let history = vec![
        withdrawal(BOB, ether("1"), D + 20),
        deposit(ALICE, ether("1"), D + 10),
        deposit(BOB, ether("1"), D),
    ];
    let mut unsorted = GlobalState::new();
    assert_eq!(
        unsorted.process_events(history.clone()),
        Err(ReplayError { index: 0, reason: RewardError::UnknownAccount })
    );
    let mut state = GlobalState::new();
    assert_eq!(state.process_events(vault_rewards::sort_events(history)), Ok(()));
    assert_eq!(state.total_shares_staked(), ether("1"));
    assert_eq!(state.last_accounted_block(), D + 20);
    // BOB settled 15e18 scaled by 1e18 when it withdrew
    let settled = ether("15").checked_mul(ether("1")).unwrap();
    assert_eq!(state.user_record(address(BOB)).unwrap().rewards_accumulated, settled);
    assert_eq!(state.preview_user_rewards(address(ALICE), D + 20), Ok(ether("5")));
}
