use soroban_forge::effects::{Holder, HostCall};
use soroban_forge::errors::ForgeError;
use soroban_forge::multisig::{MultiSigWallet, TxKind, TxStatus, Withdrawal};
use soroban_forge::types::Address;

fn user1() -> Address {
    Address::account(1)
}
fn user2() -> Address {
    Address::account(2)
}
fn user3() -> Address {
    Address::account(3)
}
fn arbiter() -> Address {
    Address::account(9)
}
fn target() -> Address {
    Address::contract(40)
}
fn wallet_address() -> Address {
    Address::contract(1)
}
fn token() -> Address {
    Address::contract(70)
}

fn payload() -> Vec<u8> {
    vec![0x01, 0x02, 0x03]
}

fn setup() -> MultiSigWallet {
    let mut w = MultiSigWallet::new();
    w.initialize(vec![user1(), user2(), user3()], 2).unwrap();
    w
}

fn submit(w: &mut MultiSigWallet) -> u64 {
    w.submit(user1(), target(), payload()).result.unwrap()
}

#[test]
fn initialize_sets_threshold() {
    let w = setup();
    assert_eq!(w.get_threshold(), Ok(2));
    assert_eq!(w.get_owners().unwrap(), vec![user1(), user2(), user3()]);
}

#[test]
fn multisig_initialize_rejects_bad_configurations() {
    let mut w = MultiSigWallet::new();
    assert_eq!(w.initialize(vec![user1(), user2()], 0), Err(ForgeError::InvalidInput));
    assert_eq!(w.initialize(vec![user1(), user2()], 3), Err(ForgeError::InvalidInput));
    assert_eq!(w.initialize(vec![], 1), Err(ForgeError::InvalidInput));
    assert_eq!(w.initialize(vec![user1(), user2(), user1()], 2), Err(ForgeError::InvalidInput));
    assert_eq!(w.get_threshold(), Err(ForgeError::NotInitialized));
    assert_eq!(w.initialize(vec![user1(), user2()], 2), Ok(()));
    assert_eq!(w.initialize(vec![user3()], 1), Err(ForgeError::AlreadyInitialized));
    assert_eq!(w.get_owners().unwrap(), vec![user1(), user2()]);
}

#[test]
fn multisig_submit_creates_pending_tx_with_distinct_ids() {
    let mut w = setup();
    let out = w.submit(user1(), target(), payload());
    assert_eq!(out.result, Ok(1));
    assert_eq!(out.auths, vec![user1()]);
    let second = submit(&mut w);
    assert_eq!(second, 2);
    let tx = w.get_tx(1).unwrap();
    assert_eq!(tx.status, TxStatus::Pending);
    assert_eq!(tx.payload, payload());
    assert_eq!(tx.submitter, user1());
    assert_eq!(tx.target, target());
    assert_eq!(tx.kind, TxKind::Opaque);
}

#[test]
fn multisig_submit_rejects_non_owner_and_uninitialized() {
    let mut w = setup();
    let out = w.submit(arbiter(), arbiter(), payload());
    assert_eq!(out.result, Err(ForgeError::Unauthorized));
    assert!(out.auths.is_empty());
    let mut fresh = MultiSigWallet::new();
    assert_eq!(fresh.submit(user1(), user1(), payload()).result, Err(ForgeError::NotInitialized));
    assert_eq!(w.get_tx_count(), 0);
}

#[test]
fn confirm_records_approval() {
    let mut w = setup();
    let id = submit(&mut w);
    let out = w.confirm(id, user2());
    assert_eq!(out.result, Ok(()));
    assert_eq!(out.auths, vec![user2()]);
    assert_eq!(w.get_confirmations(id).unwrap(), vec![user2()]);
}

#[test]
fn confirm_twice_is_invalid() {
    let mut w = setup();
    let id = submit(&mut w);
    w.confirm(id, user2());
    assert_eq!(w.confirm(id, user2()).result, Err(ForgeError::InvalidInput));
    assert_eq!(w.get_confirmations(id).unwrap(), vec![user2()]);
}

#[test]
fn confirm_non_owner_is_unauthorized() {
    let mut w = setup();
    let id = submit(&mut w);
    assert_eq!(w.confirm(id, arbiter()).result, Err(ForgeError::Unauthorized));
}

#[test]
fn confirm_missing_tx_is_not_found() {
    let mut w = setup();
    let out = w.confirm(999, user1());
    assert_eq!(out.result, Err(ForgeError::NotFound));
}

#[test]
fn multisig_reject_records_objection_and_blocks_execute() {
    let mut w = setup();
    let id = submit(&mut w);
    w.confirm(id, user1());
    w.confirm(id, user3());
    assert_eq!(w.reject(id, user2()).result, Ok(()));
    let tx = w.get_tx(id).unwrap();
    assert_eq!(tx.rejections, vec![user2()]);
    assert_eq!(tx.status, TxStatus::Pending);
    assert_eq!(w.execute(id).result, Err(ForgeError::InvalidInput));
}

#[test]
fn multisig_reject_rules() {
    let mut w = setup();
    let id = submit(&mut w);
    w.reject(id, user2());
    assert_eq!(w.reject(id, user2()).result, Err(ForgeError::InvalidInput));
    assert_eq!(w.reject(id, arbiter()).result, Err(ForgeError::Unauthorized));
    assert_eq!(w.reject(999, user1()).result, Err(ForgeError::NotFound));
    assert_eq!(w.confirm(id, user2()).result, Err(ForgeError::InvalidInput));
    w.confirm(id, user1());
    assert_eq!(w.reject(id, user1()).result, Err(ForgeError::InvalidInput));
}

#[test]
fn reject_reaches_threshold_rejects_tx() {
    let mut w = setup();
    let id = submit(&mut w);
    w.reject(id, user2());
    w.reject(id, user3());
    assert_eq!(w.get_tx(id).unwrap().status, TxStatus::Rejected);
    assert_eq!(w.confirm(id, user1()).result, Err(ForgeError::InvalidInput));
    assert_eq!(w.execute(id).result, Err(ForgeError::InvalidInput));
    assert_eq!(w.reject(id, user1()).result, Err(ForgeError::InvalidInput));
}

#[test]
fn threshold_one_single_rejection_rejects() {
    let mut w = MultiSigWallet::new();
    w.initialize(vec![user1(), user2()], 1).unwrap();
    let id = submit(&mut w);
    w.reject(id, user2());
    assert_eq!(w.get_tx(id).unwrap().status, TxStatus::Rejected);
}

#[test]
fn multisig_execute_requires_threshold_and_runs_once() {
    let mut w = setup();
    let id = submit(&mut w);
    w.confirm(id, user1());
    let below = w.execute(id);
    assert_eq!(below.result, Err(ForgeError::InvalidInput));
    assert!(below.calls.is_empty());
    w.confirm(id, user2());
    let out = w.execute(id);
    assert_eq!(out.result, Ok(()));
    match &out.calls[..] {
        [HostCall::Invoke { target: t, payload: p }] => {
            assert_eq!(*t, target());
            assert_eq!(*p, payload());
        }
        _ => panic!("expected one invocation"),
    }
    assert_eq!(w.get_tx(id).unwrap().status, TxStatus::Executed);
    assert_eq!(w.execute(id).result, Err(ForgeError::InvalidInput));
    assert_eq!(w.reject(id, user3()).result, Err(ForgeError::InvalidInput));
}

#[test]
fn multisig_missing_tx_reads_are_not_found() {
    let w = setup();
    assert_eq!(w.get_tx(7).err(), Some(ForgeError::NotFound));
    assert_eq!(w.get_confirmations(7), Err(ForgeError::NotFound));
    assert_eq!(w.get_rejections(7), Err(ForgeError::NotFound));
    let fresh = MultiSigWallet::new();
    assert_eq!(fresh.get_confirmations(1), Err(ForgeError::NotFound));
    assert_eq!(fresh.get_owners(), Err(ForgeError::NotInitialized));
    assert!(!fresh.is_owner(user1()));
}

#[test]
fn is_owner_recognizes_members_only() {
    let w = setup();
    assert!(w.is_owner(user1()) && w.is_owner(user2()) && w.is_owner(user3()));
    assert!(!w.is_owner(arbiter()));
}

#[test]
fn multisig_signal_lists_keep_recorded_order() {
    let mut w = setup();
    let id = submit(&mut w);
    w.confirm(id, user3());
    w.confirm(id, user1());
    assert_eq!(w.get_confirmations(id).unwrap(), vec![user3(), user1()]);
    let id2 = submit(&mut w);
    w.reject(id2, user2());
    assert_eq!(w.get_rejections(id2).unwrap(), vec![user2()]);
}

#[test]
fn multisig_tx_count_counts_successful_submits_only() {
    let mut w = setup();
    assert_eq!(w.get_tx_count(), 0);
    submit(&mut w);
    w.submit(arbiter(), target(), payload());
    submit(&mut w);
    assert_eq!(w.get_tx_count(), 2);
    assert_eq!(MultiSigWallet::new().get_tx_count(), 0);
}

#[test]
fn multisig_get_transactions_paginates_in_id_order_and_clamps() {
    let mut w = setup();
    for _ in 0..5 {
        submit(&mut w);
    }
    let ids = |v: Vec<soroban_forge::multisig::WalletTx>| v.iter().map(|t| t.tx_id).collect::<Vec<u64>>();
    assert_eq!(ids(w.get_transactions(0, 2).unwrap()), vec![1, 2]);
    assert_eq!(ids(w.get_transactions(3, 10).unwrap()), vec![4, 5]);
    assert!(w.get_transactions(5, 1).unwrap().is_empty());
    assert!(w.get_transactions(6, 1).unwrap().is_empty());
    assert_eq!(w.get_transactions(0, 0).err(), Some(ForgeError::InvalidInput));
    assert!(MultiSigWallet::new().get_transactions(0, 5).unwrap().is_empty());
}

#[test]
fn get_transactions_by_status_filters_then_paginates() {
    let mut w = setup();
    let pending_id = submit(&mut w);
    let executed_id = submit(&mut w);
    let rejected_id = submit(&mut w);
    let pending_id_2 = submit(&mut w);
    w.confirm(executed_id, user2());
    w.confirm(executed_id, user3());
    w.execute(executed_id).result.unwrap();
    w.reject(rejected_id, user2());
    w.reject(rejected_id, user3());
    let ids = |s: TxStatus, o: u32, l: u32| {
        w.get_transactions_by_status(s, o, l).unwrap().iter().map(|t| t.tx_id).collect::<Vec<u64>>()
    };
    assert_eq!(ids(TxStatus::Pending, 0, 10), vec![pending_id, pending_id_2]);
    assert_eq!(ids(TxStatus::Pending, 1, 1), vec![pending_id_2]);
    assert_eq!(ids(TxStatus::Executed, 0, 10), vec![executed_id]);
    assert_eq!(ids(TxStatus::Rejected, 0, 10), vec![rejected_id]);
    assert_eq!(w.get_transactions_by_status(TxStatus::Pending, 0, 0).err(), Some(ForgeError::InvalidInput));
}

#[test]
fn multisig_deposit_updates_balance_per_token() {
    let mut w = setup();
    assert_eq!(w.balance(token()), 0);
    let out = w.deposit(token(), arbiter(), 500);
    assert_eq!(out.result, Ok(()));
    assert_eq!(out.auths, vec![arbiter()]);
    match &out.calls[..] {
        [HostCall::Transfer { token: t, from, to, amount }] => {
            assert_eq!((*t, *from, *to, *amount), (token(), Holder::At(arbiter()), Holder::This, 500));
        }
        _ => panic!("expected one transfer"),
    }
    w.deposit(token(), user1(), 250);
    let other = Address::contract(71);
    w.deposit(other, user1(), 7);
    assert_eq!(w.balance(token()), 750);
    assert_eq!(w.balance(other), 7);
    assert_eq!(w.touch_ttl(token()), Ok(()));
    assert_eq!(w.touch_ttl(Address::contract(99)), Err(ForgeError::NotFound));
}

#[test]
fn multisig_deposit_rejects_bad_amounts_and_uninitialized() {
    let mut w = setup();
    assert_eq!(w.deposit(token(), user1(), 0).result, Err(ForgeError::InvalidInput));
    assert_eq!(w.deposit(token(), user1(), -1).result, Err(ForgeError::InvalidInput));
    let mut fresh = MultiSigWallet::new();
    assert_eq!(fresh.deposit(token(), user1(), 5).result, Err(ForgeError::NotInitialized));
    w.deposit(token(), user1(), i128::MAX);
    assert_eq!(w.deposit(token(), user1(), 1).result, Err(ForgeError::ArithmeticOverflow));
    assert_eq!(w.balance(token()), i128::MAX);
}

#[test]
fn withdrawal_executes_at_threshold_exactly_once() {
    let mut w = setup();
    w.deposit(token(), user1(), 1_000);
    let id = w.submit_withdrawal(user1(), token(), arbiter(), 400, wallet_address()).result.unwrap();
    let tx = w.get_tx(id).unwrap();
    assert_eq!(tx.target, wallet_address());
    assert_eq!(tx.kind, TxKind::Withdrawal(Withdrawal { token: token(), destination: arbiter(), amount: 400 }));
    w.confirm(id, user1());
    assert_eq!(w.execute(id).result, Err(ForgeError::InvalidInput));
    w.confirm(id, user2());
    let out = w.execute(id);
    assert_eq!(out.result, Ok(()));
    match &out.calls[..] {
        [HostCall::Transfer { token: t, from, to, amount }] => {
            assert_eq!((*t, *from, *to, *amount), (token(), Holder::This, Holder::At(arbiter()), 400));
        }
        _ => panic!("expected one transfer"),
    }
    assert_eq!(w.balance(token()), 600);
    assert_eq!(w.execute(id).result, Err(ForgeError::InvalidInput));
    assert_eq!(w.balance(token()), 600);
}

#[test]
fn withdrawal_exceeding_balance_fails_and_changes_nothing() {
    let mut w = setup();
    w.deposit(token(), user1(), 100);
    let id = w.submit_withdrawal(user1(), token(), arbiter(), 101, wallet_address()).result.unwrap();
    w.confirm(id, user1());
    w.confirm(id, user2());
    assert_eq!(w.execute(id).result, Err(ForgeError::InsufficientFunds));
    assert_eq!(w.get_tx(id).unwrap().status, TxStatus::Pending);
    assert_eq!(w.balance(token()), 100);
}

#[test]
fn multisig_withdrawal_rejection_moves_no_tokens() {
    let mut w = setup();
    w.deposit(token(), user1(), 100);
    let id = w.submit_withdrawal(user1(), token(), arbiter(), 50, wallet_address()).result.unwrap();
    w.reject(id, user2());
    w.reject(id, user3());
    assert_eq!(w.execute(id).result, Err(ForgeError::InvalidInput));
    assert_eq!(w.balance(token()), 100);
}

#[test]
fn multisig_submit_withdrawal_validation() {
    let mut w = setup();
    assert_eq!(
        w.submit_withdrawal(arbiter(), token(), arbiter(), 5, wallet_address()).result,
        Err(ForgeError::Unauthorized)
    );
    assert_eq!(
        w.submit_withdrawal(user1(), token(), arbiter(), 0, wallet_address()).result,
        Err(ForgeError::InvalidInput)
    );
    let mut fresh = MultiSigWallet::new();
    assert_eq!(
        fresh.submit_withdrawal(user1(), token(), arbiter(), 5, wallet_address()).result,
        Err(ForgeError::NotInitialized)
    );
}

#[test]
fn multisig_from_parts_round_trips_and_refuses_broken_state() {
    let mut w = setup();
    let id = submit(&mut w);
    w.confirm(id, user2());
    w.deposit(token(), user1(), 40);
    let (owners, threshold, txs, balances) = w.parts();
    let rebuilt = MultiSigWallet::from_parts(owners.clone(), threshold, txs.clone(), balances.clone()).unwrap();
    assert_eq!(rebuilt.get_confirmations(id).unwrap(), vec![user2()]);
    assert_eq!(rebuilt.balance(token()), 40);

    let dup_owner = MultiSigWallet::from_parts(vec![user1(), user1()], 1, vec![], vec![]);
    assert!(dup_owner.is_none());
    let negative = MultiSigWallet::from_parts(owners.clone(), threshold, txs.clone(), vec![(token(), -1)]);
    assert!(negative.is_none());
    let shadowed = MultiSigWallet::from_parts(owners.clone(), threshold, vec![], vec![(token(), -1), (token(), 5)]);
    assert_eq!(shadowed.unwrap().balance(token()), 5);
    let mut bad_id = txs.clone();
    bad_id[0].tx_id = 9;
    assert!(MultiSigWallet::from_parts(owners.clone(), threshold, bad_id, vec![]).is_none());
    let mut outsider_signed = txs.clone();
    outsider_signed[0].confirmations.push(arbiter());
    assert!(MultiSigWallet::from_parts(owners.clone(), threshold, outsider_signed, vec![]).is_none());
    assert!(MultiSigWallet::from_parts(vec![], 0, vec![], vec![]).is_some());
    assert!(MultiSigWallet::from_parts(vec![user1()], 2, vec![], vec![]).is_none());
}

#[test]
fn confirmations_record_each_owner_once_in_order() {
    let mut w = setup();
    let id = submit(&mut w);
    let signers = [user3(), user1(), user3(), user2(), user1()];
    let ok: Vec<bool> = signers.iter().map(|s| w.confirm(id, *s).result.is_ok()).collect();
    assert_eq!(ok, vec![true, true, false, true, false]);
    assert_eq!(w.get_confirmations(id).unwrap(), vec![user3(), user1(), user2()]);
    assert_eq!(w.get_tx(id).unwrap().status, TxStatus::Pending);
}

#[test]
fn opaque_transaction_is_dispatched_once() {
    let mut w = setup();
    let id = submit(&mut w);
    w.confirm(id, user1());
    w.confirm(id, user2());
    let first = w.execute(id);
    assert_eq!(first.result, Ok(()));
    assert_eq!(first.calls.len(), 1);
    for _ in 0..3 {
        let again = w.execute(id);
        assert_eq!(again.result, Err(ForgeError::InvalidInput));
        assert!(again.calls.is_empty());
    }
    assert_eq!(w.get_tx(id).unwrap().status, TxStatus::Executed);
}
