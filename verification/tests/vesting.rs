use soroban_forge::effects::{Holder, HostCall};
use soroban_forge::errors::ForgeError;
use soroban_forge::types::Address;
use soroban_forge::vesting::{Vesting, VestingSchedule, VestingStatus};

const START: u64 = 1_000_000;
const CLIFF: u64 = 1_000;
const DURATION: u64 = 4_000;
const TOTAL: i128 = 10_000;

fn user1() -> Address {
    Address::account(1)
}

fn token() -> Address {
    Address::contract(77)
}

fn create(v: &mut Vesting) -> u64 {
    v.create_schedule(user1(), token(), TOTAL, CLIFF, DURATION, START).result.unwrap()
}

fn claimed_amount(v: &mut Vesting, id: u64, now: u64) -> i128 {
    v.claim(id, now).result.unwrap()
}

#[test]
fn tests_create_schedule_succeeds_and_is_locked() {
    let mut v = Vesting::new();
    let id = create(&mut v);
    assert_eq!(v.get_status(id, START), Ok(VestingStatus::Locked));
    assert_eq!(v.claimable(id, START), Ok(0));
}

#[test]
fn tests_create_schedule_assigns_distinct_ids() {
    let mut v = Vesting::new();
    let id1 = create(&mut v);
    let id2 = create(&mut v);
    assert_ne!(id1, id2);
    assert_eq!((id1, id2), (1, 2));
}

#[test]
fn tests_create_schedule_without_cliff_starts_vesting() {
    let mut v = Vesting::new();
    let id = v.create_schedule(user1(), Address::account(9), TOTAL, 0, DURATION, START).result.unwrap();
    assert_eq!(v.get_status(id, START), Ok(VestingStatus::Vesting));
    assert_eq!(v.get_schedule(id).unwrap().status, VestingStatus::Vesting);
}

#[test]
fn tests_create_schedule_rejects_zero_total() {
    let mut v = Vesting::new();
    let out = v.create_schedule(user1(), Address::account(9), 0, CLIFF, DURATION, START);
    assert_eq!(out.result, Err(ForgeError::InvalidInput));
}

#[test]
fn tests_create_schedule_rejects_zero_duration() {
    let mut v = Vesting::new();
    let out = v.create_schedule(user1(), Address::account(9), TOTAL, CLIFF, 0, START);
    assert_eq!(out.result, Err(ForgeError::InvalidInput));
}

#[test]
fn tests_create_schedule_rejects_cliff_after_duration() {
    let mut v = Vesting::new();
    let out = v.create_schedule(user1(), Address::account(9), TOTAL, 5_000, 4_000, START);
    assert_eq!(out.result, Err(ForgeError::InvalidInput));
}

#[test]
fn vesting_rejected_create_asks_no_auth_and_stores_nothing() {
    let mut v = Vesting::new();
    let out = v.create_schedule(user1(), token(), -5, CLIFF, DURATION, START);
    assert_eq!(out.result, Err(ForgeError::InvalidInput));
    assert!(out.auths.is_empty());
    assert!(v.records().is_empty());
    let ok = v.create_schedule(user1(), token(), TOTAL, CLIFF, DURATION, START);
    assert_eq!(ok.auths, vec![user1()]);
    assert!(ok.calls.is_empty());
}

#[test]
fn tests_claimable_before_cliff_is_zero() {
    let mut v = Vesting::new();
    let id = create(&mut v);
    assert_eq!(v.claimable(id, START + CLIFF / 2), Ok(0));
}

#[test]
fn tests_claimable_at_cliff_is_zero() {
    let mut v = Vesting::new();
    let id = create(&mut v);
    assert_eq!(v.claimable(id, START + CLIFF), Ok(0));
}

#[test]
fn tests_claim_before_cliff_returns_zero() {
    let mut v = Vesting::new();
    let id = create(&mut v);
    let out = v.claim(id, START + CLIFF / 2);
    assert_eq!(out.result, Ok(0));
    assert!(out.calls.is_empty());
    assert_eq!(out.auths, vec![user1()]);
}

#[test]
fn tests_claimable_midway_is_half() {
    let mut v = Vesting::new();
    let id = create(&mut v);
    assert_eq!(v.claimable(id, START + CLIFF + (DURATION - CLIFF) / 2), Ok(TOTAL / 2));
}

#[test]
fn tests_claimable_at_duration_is_full() {
    let mut v = Vesting::new();
    let id = create(&mut v);
    assert_eq!(v.claimable(id, START + DURATION), Ok(TOTAL));
}

#[test]
fn tests_claimable_after_duration_is_full() {
    let mut v = Vesting::new();
    let id = create(&mut v);
    assert_eq!(v.claimable(id, START + DURATION + 1), Ok(TOTAL));
}

#[test]
fn vesting_claimable_floors_the_linear_share() {
    let mut v = Vesting::new();
    let id = v.create_schedule(user1(), token(), 10, 0, 3, START).result.unwrap();
    // 10 * 1 / 3 = 3.33.. floors to 3; 10 * 2 / 3 = 6.66.. floors to 6.
    assert_eq!(v.claimable(id, START + 1), Ok(3));
    assert_eq!(v.claimable(id, START + 2), Ok(6));
    assert_eq!(v.claimable(id, START + 3), Ok(10));
}

#[test]
fn tests_claim_pays_exact_amount() {
    let mut v = Vesting::new();
    let id = create(&mut v);
    let out = v.claim(id, START + CLIFF + (DURATION - CLIFF) / 2);
    assert_eq!(out.result, Ok(TOTAL / 2));
    assert_eq!(out.calls.len(), 1);
    match &out.calls[0] {
        HostCall::Transfer { token: t, from, to, amount } => {
            assert_eq!(*t, token());
            assert_eq!(*from, Holder::This);
            assert_eq!(*to, Holder::At(user1()));
            assert_eq!(*amount, TOTAL / 2);
        }
        HostCall::Invoke { .. } => panic!("expected a transfer"),
    }
}

#[test]
fn tests_repeated_claims_never_overpay_or_underpay() {
    let mut v = Vesting::new();
    let id = create(&mut v);
    let mid = START + CLIFF + (DURATION - CLIFF) / 2;
    assert_eq!(claimed_amount(&mut v, id, mid), TOTAL / 2);
    assert_eq!(v.claimable(id, mid), Ok(0));

    let late = START + DURATION + 100;
    assert_eq!(claimed_amount(&mut v, id, late), TOTAL - TOTAL / 2);
    assert_eq!(v.claimable(id, late), Ok(0));

    assert_eq!(claimed_amount(&mut v, id, late), 0);
    assert_eq!(v.get_status(id, late), Ok(VestingStatus::Completed));
}

#[test]
fn tests_claim_after_end_completes_status() {
    let mut v = Vesting::new();
    let id = create(&mut v);
    let t = START + DURATION + 1;
    assert_eq!(v.get_status(id, t), Ok(VestingStatus::Vesting));
    assert_eq!(claimed_amount(&mut v, id, t), TOTAL);
    assert_eq!(v.get_status(id, t), Ok(VestingStatus::Completed));
    assert_eq!(v.get_schedule(id).unwrap().status, VestingStatus::Completed);
}

#[test]
fn tests_claim_without_cliff_vests_from_start() {
    let mut v = Vesting::new();
    let id = v.create_schedule(user1(), Address::account(9), TOTAL, 0, DURATION, START).result.unwrap();
    assert_eq!(v.claimable(id, START + DURATION / 2), Ok(TOTAL / 2));
}

#[test]
fn tests_cliff_equals_duration_vests_at_once() {
    let mut v = Vesting::new();
    let id = v.create_schedule(user1(), Address::account(9), TOTAL, DURATION, DURATION, START).result.unwrap();
    assert_eq!(v.claimable(id, START + DURATION - 1), Ok(0));
    assert_eq!(v.claimable(id, START + DURATION), Ok(TOTAL));
}

#[test]
fn tests_claim_missing_schedule_is_not_found() {
    let mut v = Vesting::new();
    let out = v.claim(999, START);
    assert_eq!(out.result, Err(ForgeError::NotFound));
}

#[test]
fn tests_claimable_missing_schedule_is_not_found() {
    let v = Vesting::new();
    assert_eq!(v.claimable(999, START), Err(ForgeError::NotFound));
}

#[test]
fn tests_get_status_missing_schedule_is_not_found() {
    let v = Vesting::new();
    assert_eq!(v.get_status(999, START), Err(ForgeError::NotFound));
}

#[test]
fn vesting_schedule_zero_is_not_found() {
    let mut v = Vesting::new();
    create(&mut v);
    assert_eq!(v.get_schedule(0), Err(ForgeError::NotFound));
    assert_eq!(v.touch_ttl(0), Err(ForgeError::NotFound));
    assert_eq!(v.touch_ttl(1), Ok(()));
}

#[test]
fn vesting_overflowing_cliff_is_arithmetic_overflow() {
    let mut v = Vesting::new();
    let out = v.create_schedule(user1(), token(), TOTAL, 10, 20, u64::MAX - 5);
    assert_eq!(out.result, Err(ForgeError::ArithmeticOverflow));
    assert!(v.records().is_empty());
}

#[test]
fn vesting_overflowing_product_is_arithmetic_overflow() {
    let mut v = Vesting::new();
    let id = v.create_schedule(user1(), token(), i128::MAX, 0, 10, START).result.unwrap();
    assert_eq!(v.claimable(id, START + 5), Err(ForgeError::ArithmeticOverflow));
    let out = v.claim(id, START + 5);
    assert_eq!(out.result, Err(ForgeError::ArithmeticOverflow));
    assert_eq!(v.get_schedule(id).unwrap().claimed, 0);
}

#[test]
fn vesting_from_records_refuses_broken_schedule() {
    let good = VestingSchedule {
        beneficiary: user1(),
        token: token(),
        total_amount: 100,
        start: 0,
        cliff: 0,
        duration: 10,
        claimed: 40,
        status: VestingStatus::Vesting,
    };
    assert!(Vesting::from_records(vec![good]).is_some());
    let over = VestingSchedule { claimed: 101, ..good };
    assert!(Vesting::from_records(vec![good, over]).is_none());
}

#[test]
fn vesting_claimed_never_exceeds_vested_over_time() {
    let mut v = Vesting::new();
    let id = create(&mut v);
    let mut paid: i128 = 0;
    let mut t = START;
    while t <= START + DURATION + 10 {
        paid += claimed_amount(&mut v, id, t);
        assert!(paid <= TOTAL);
        assert_eq!(v.get_schedule(id).unwrap().claimed, paid);
        t += 137;
    }
    paid += claimed_amount(&mut v, id, START + DURATION);
    assert_eq!(paid, TOTAL);
}

#[test]
fn vesting_claimable_grows_with_time_without_claims() {
    let mut v = Vesting::new();
    let id = create(&mut v);
    let mut last = 0;
    for step in 0..60u64 {
        let now = START + step * 100;
        let c = v.claimable(id, now).unwrap();
        assert!(c >= last);
        assert!(c <= TOTAL);
        last = c;
    }
    assert_eq!(last, TOTAL);
}

#[test]
fn claimable_stays_non_negative_after_claims_in_time_order() {
    let mut v = Vesting::new();
    let id = create(&mut v);
    let times = [START + CLIFF + 1, START + CLIFF + 500, START + CLIFF + 500, START + DURATION - 1];
    let mut paid = 0;
    for t in times {
        paid += claimed_amount(&mut v, id, t);
        for later in [t, t + 1, t + 700, START + DURATION + 5] {
            let c = v.claimable(id, later).unwrap();
            assert!(c >= 0);
            assert!(paid + c <= TOTAL);
        }
    }
    assert_eq!(paid + v.claimable(id, START + DURATION).unwrap(), TOTAL);
}
