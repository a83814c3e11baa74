use soroban_forge::effects::{Holder, HostCall, Outcome};
use soroban_forge::errors::ForgeError;
use soroban_forge::escrow::{paginate, Escrow, EscrowData, EscrowDataV1, EscrowStatus};
use soroban_forge::types::Address;

const START: u64 = 1_000_000;
const TIMEOUT: u64 = 1_000;
const AMOUNT: i128 = 1_000;

fn buyer() -> Address {
    Address::account(1)
}
fn seller() -> Address {
    Address::account(2)
}
fn arbiter() -> Address {
    Address::account(3)
}
fn outsider() -> Address {
    Address::account(4)
}
fn token() -> Address {
    Address::contract(50)
}

/// Token balances as the host would keep them; a batch of transfers is
/// applied all or nothing, as a failing host call aborts the invocation.
struct Ledger {
    balances: Vec<(Holder, i128)>,
}

impl Ledger {
    fn funded_buyer() -> Ledger {
        Ledger { balances: vec![(Holder::At(buyer()), AMOUNT)] }
    }

    fn balance(&self, h: Holder) -> i128 {
        self.balances.iter().filter(|(k, _)| *k == h).map(|(_, v)| *v).sum()
    }

    fn add(&mut self, h: Holder, delta: i128) {
        match self.balances.iter_mut().find(|(k, _)| *k == h) {
            Some(entry) => entry.1 += delta,
            None => self.balances.push((h, delta)),
        }
    }

    fn apply(&mut self, calls: &[HostCall]) -> Result<(), ForgeError> {
        let saved = self.balances.clone();
        for c in calls {
            if let HostCall::Transfer { from, to, amount, .. } = c {
                if self.balance(*from) < *amount {
                    self.balances = saved;
                    return Err(ForgeError::TokenTransferFailed);
                }
                self.add(*from, -*amount);
                self.add(*to, *amount);
            }
        }
        Ok(())
    }
}

/// Run one entry point the way the host does: on a failed transfer the
/// contract state is rolled back and the error is `TokenTransferFailed`.
fn run(
    escrow: &mut Escrow,
    ledger: &mut Ledger,
    op: impl FnOnce(&mut Escrow) -> Outcome<()>,
) -> Result<(), ForgeError> {
    let saved = escrow.records().clone();
    let out = op(escrow);
    out.result?;
    if let Err(e) = ledger.apply(&out.calls) {
        *escrow = Escrow::from_records(saved).unwrap();
        return Err(e);
    }
    Ok(())
}

fn create(escrow: &mut Escrow, timeout: u64) -> u64 {
    escrow
        .create_escrow(buyer(), seller(), arbiter(), token(), AMOUNT, timeout, START)
        .result
        .unwrap()
}

fn funded(timeout: u64) -> (Escrow, Ledger, u64) {
    let mut escrow = Escrow::new();
    let mut ledger = Ledger::funded_buyer();
    let id = create(&mut escrow, timeout);
    run(&mut escrow, &mut ledger, |e| e.deposit(id)).unwrap();
    (escrow, ledger, id)
}

const CONTRACT: Holder = Holder::This;

#[test]
fn escrow_create_records_parties_and_stays_pending() {
    let mut escrow = Escrow::new();
    let id = create(&mut escrow, TIMEOUT);
    let record = escrow.get_escrow(id).unwrap();
    assert_eq!(record.escrow_id, id);
    assert_eq!(record.buyer, buyer());
    assert_eq!(record.seller, seller());
    assert_eq!(record.arbiter, arbiter());
    assert_eq!(record.amount, AMOUNT);
    assert_eq!(record.timeout, TIMEOUT);
    assert_eq!(record.created_at, START);
    assert_eq!(escrow.get_status(id), Ok(EscrowStatus::Pending));
}

#[test]
fn escrow_ids_are_monotonic() {
    let mut escrow = Escrow::new();
    let first = create(&mut escrow, TIMEOUT);
    let second = create(&mut escrow, TIMEOUT);
    assert_eq!(first + 1, second);
    assert_eq!(escrow.count(), 2);
}

#[test]
fn escrow_create_rejects_zero_amount_and_zero_timeout() {
    let mut escrow = Escrow::new();
    let a = escrow.create_escrow(buyer(), seller(), arbiter(), token(), 0, TIMEOUT, START);
    assert_eq!(a.result, Err(ForgeError::InvalidInput));
    let b = escrow.create_escrow(buyer(), seller(), arbiter(), token(), AMOUNT, 0, START);
    assert_eq!(b.result, Err(ForgeError::InvalidInput));
    assert_eq!(escrow.count(), 0);
}

#[test]
fn deposit_moves_tokens_into_the_contract() {
    let (escrow, ledger, id) = funded(TIMEOUT);
    assert_eq!(ledger.balance(Holder::At(buyer())), 0);
    assert_eq!(ledger.balance(CONTRACT), AMOUNT);
    assert_eq!(escrow.get_status(id), Ok(EscrowStatus::Funded));
}

#[test]
fn escrow_deposit_asks_the_buyer_and_moves_the_amount_in() {
    let mut escrow = Escrow::new();
    let id = create(&mut escrow, TIMEOUT);
    let out = escrow.deposit(id);
    assert_eq!(out.result, Ok(()));
    assert_eq!(out.auths, vec![buyer()]);
    match &out.calls[..] {
        [HostCall::Transfer { token: t, from, to, amount }] => {
            assert_eq!((*t, *from, *to, *amount), (token(), Holder::At(buyer()), Holder::This, AMOUNT));
        }
        _ => panic!("expected one transfer"),
    }
}

#[test]
fn deposit_twice_is_rejected_and_moves_nothing_more() {
    let (mut escrow, mut ledger, id) = funded(TIMEOUT);
    assert_eq!(run(&mut escrow, &mut ledger, |e| e.deposit(id)), Err(ForgeError::InvalidInput));
    assert_eq!(ledger.balance(CONTRACT), AMOUNT);
}

#[test]
fn deposit_with_insufficient_balance_fails_cleanly() {
    let mut escrow = Escrow::new();
    let mut ledger = Ledger { balances: vec![] };
    let id = create(&mut escrow, TIMEOUT);
    assert_eq!(run(&mut escrow, &mut ledger, |e| e.deposit(id)), Err(ForgeError::TokenTransferFailed));
    assert_eq!(ledger.balance(CONTRACT), 0);
    assert_eq!(escrow.get_status(id), Ok(EscrowStatus::Pending));
}

#[test]
fn release_pays_the_seller() {
    let (mut escrow, mut ledger, id) = funded(TIMEOUT);
    run(&mut escrow, &mut ledger, |e| e.release(id)).unwrap();
    assert_eq!(ledger.balance(Holder::At(seller())), AMOUNT);
    assert_eq!(ledger.balance(CONTRACT), 0);
    assert_eq!(escrow.get_status(id), Ok(EscrowStatus::Completed));
}

#[test]
fn escrow_release_requires_funded_state_and_cannot_run_twice() {
    let mut escrow = Escrow::new();
    let mut ledger = Ledger::funded_buyer();
    let id = create(&mut escrow, TIMEOUT);
    assert_eq!(run(&mut escrow, &mut ledger, |e| e.release(id)), Err(ForgeError::InvalidInput));
    run(&mut escrow, &mut ledger, |e| e.deposit(id)).unwrap();
    run(&mut escrow, &mut ledger, |e| e.release(id)).unwrap();
    assert_eq!(run(&mut escrow, &mut ledger, |e| e.release(id)), Err(ForgeError::InvalidInput));
    assert_eq!(ledger.balance(Holder::At(seller())), AMOUNT);
}

#[test]
fn refund_by_seller_before_deadline() {
    let (mut escrow, _ledger, id) = funded(TIMEOUT);
    let out = escrow.refund(id, START + 10);
    assert_eq!(out.result, Ok(()));
    assert_eq!(out.auths, vec![seller()]);
    assert_eq!(escrow.get_status(id), Ok(EscrowStatus::Refunded));
}

#[test]
fn refund_by_buyer_after_deadline() {
    let (mut escrow, mut ledger, id) = funded(TIMEOUT);
    let out = escrow.refund(id, START + TIMEOUT);
    assert_eq!(out.auths, vec![buyer()]);
    ledger.apply(&out.calls).unwrap();
    assert_eq!(ledger.balance(Holder::At(buyer())), AMOUNT);
    assert_eq!(escrow.get_status(id), Ok(EscrowStatus::Refunded));
}

#[test]
fn refund_requires_funded_state() {
    let mut escrow = Escrow::new();
    let id = create(&mut escrow, TIMEOUT);
    assert_eq!(escrow.refund(id, START).result, Err(ForgeError::InvalidInput));
}

#[test]
fn escrow_refund_with_overflowing_deadline_is_arithmetic_overflow() {
    let mut escrow = Escrow::new();
    let id = escrow
        .create_escrow(buyer(), seller(), arbiter(), token(), AMOUNT, u64::MAX, START)
        .result
        .unwrap();
    escrow.deposit(id);
    assert_eq!(escrow.refund(id, START).result, Err(ForgeError::ArithmeticOverflow));
    assert_eq!(escrow.get_status(id), Ok(EscrowStatus::Funded));
}

#[test]
fn escrow_dispute_by_either_party_freezes_payouts() {
    for claimant in [buyer(), seller()] {
        let (mut escrow, mut ledger, id) = funded(TIMEOUT);
        let out = escrow.dispute(id, claimant);
        assert_eq!(out.result, Ok(()));
        assert_eq!(out.auths, vec![claimant]);
        assert_eq!(escrow.get_status(id), Ok(EscrowStatus::Disputed));
        assert_eq!(run(&mut escrow, &mut ledger, |e| e.release(id)), Err(ForgeError::InvalidInput));
        assert_eq!(run(&mut escrow, &mut ledger, |e| e.refund(id, START)), Err(ForgeError::InvalidInput));
        assert_eq!(ledger.balance(CONTRACT), AMOUNT);
        assert_eq!(escrow.get_status(id), Ok(EscrowStatus::Disputed));
    }
}

#[test]
fn dispute_by_outsider_is_rejected() {
    let (mut escrow, _ledger, id) = funded(TIMEOUT);
    let out = escrow.dispute(id, outsider());
    assert_eq!(out.result, Err(ForgeError::InvalidInput));
    assert!(out.auths.is_empty());
    assert_eq!(escrow.get_status(id), Ok(EscrowStatus::Funded));
}

#[test]
fn dispute_requires_funded_state() {
    let mut escrow = Escrow::new();
    let id = create(&mut escrow, TIMEOUT);
    assert_eq!(escrow.dispute(id, buyer()).result, Err(ForgeError::InvalidInput));
}

#[test]
fn escrow_resolve_pays_the_chosen_side() {
    let (mut escrow, mut ledger, id) = funded(TIMEOUT);
    escrow.dispute(id, buyer());
    let out = escrow.resolve(id, true);
    assert_eq!(out.auths, vec![arbiter()]);
    ledger.apply(&out.calls).unwrap();
    assert_eq!(ledger.balance(Holder::At(seller())), AMOUNT);
    assert_eq!(escrow.get_status(id), Ok(EscrowStatus::Completed));

    let (mut escrow, mut ledger, id) = funded(TIMEOUT);
    escrow.dispute(id, seller());
    run(&mut escrow, &mut ledger, |e| e.resolve(id, false)).unwrap();
    assert_eq!(ledger.balance(Holder::At(buyer())), AMOUNT);
    assert_eq!(ledger.balance(CONTRACT), 0);
    assert_eq!(escrow.get_status(id), Ok(EscrowStatus::Refunded));
}

#[test]
fn resolve_requires_disputed_state() {
    let (mut escrow, _ledger, id) = funded(TIMEOUT);
    assert_eq!(escrow.resolve(id, true).result, Err(ForgeError::InvalidInput));
}

#[test]
fn escrow_cancel_pending_and_not_after_deposit() {
    let mut escrow = Escrow::new();
    let id = create(&mut escrow, TIMEOUT);
    let out = escrow.cancel(id);
    assert_eq!(out.result, Ok(()));
    assert_eq!(out.auths, vec![buyer()]);
    assert_eq!(escrow.get_status(id), Ok(EscrowStatus::Cancelled));

    let (mut escrow, ledger, id) = funded(TIMEOUT);
    assert_eq!(escrow.cancel(id).result, Err(ForgeError::InvalidInput));
    assert_eq!(ledger.balance(CONTRACT), AMOUNT);
}

#[test]
fn escrow_missing_escrow_is_not_found_everywhere() {
    let mut escrow = Escrow::new();
    assert_eq!(escrow.get_status(999), Err(ForgeError::NotFound));
    assert_eq!(escrow.get_escrow(999).err(), Some(ForgeError::NotFound));
    assert_eq!(escrow.touch_ttl(999), Err(ForgeError::NotFound));
    assert_eq!(escrow.deposit(999).result, Err(ForgeError::NotFound));
    assert_eq!(escrow.release(999).result, Err(ForgeError::NotFound));
    assert_eq!(escrow.release_partial(999, 1).result, Err(ForgeError::NotFound));
    assert_eq!(escrow.refund(999, START).result, Err(ForgeError::NotFound));
    assert_eq!(escrow.dispute(999, buyer()).result, Err(ForgeError::NotFound));
    assert_eq!(escrow.resolve(999, true).result, Err(ForgeError::NotFound));
    assert_eq!(escrow.cancel(999).result, Err(ForgeError::NotFound));
}

#[test]
fn create_indexes_all_distinct_parties() {
    let mut escrow = Escrow::new();
    let first = create(&mut escrow, TIMEOUT);
    let second = create(&mut escrow, TIMEOUT);
    for party in [buyer(), seller(), arbiter()] {
        let page = escrow.escrows_for_participant(party, 0, 10);
        assert_eq!(page.total, 2);
        assert_eq!(page.ids, vec![first, second]);
        assert_eq!(page.next_cursor, None);
    }
}

#[test]
fn repeated_role_address_is_indexed_once() {
    let mut escrow = Escrow::new();
    let id = escrow
        .create_escrow(buyer(), buyer(), arbiter(), token(), AMOUNT, TIMEOUT, START)
        .result
        .unwrap();
    let page = escrow.escrows_for_participant(buyer(), 0, 10);
    assert_eq!(page.total, 1);
    assert_eq!(page.ids, vec![id]);
}

#[test]
fn unknown_address_returns_empty_page() {
    let mut escrow = Escrow::new();
    create(&mut escrow, TIMEOUT);
    let page = escrow.escrows_for_participant(outsider(), 0, 10);
    assert_eq!(page.total, 0);
    assert!(page.ids.is_empty());
    assert_eq!(page.next_cursor, None);
}

#[test]
fn index_is_creation_order_with_party_subsets() {
    let mut escrow = Escrow::new();
    let other_seller = Address::account(22);
    let mut ids = vec![];
    for s in [seller(), other_seller, seller(), other_seller] {
        ids.push(
            escrow
                .create_escrow(buyer(), s, arbiter(), token(), AMOUNT, TIMEOUT, START)
                .result
                .unwrap(),
        );
    }
    assert_eq!(escrow.participant_escrow_ids(arbiter()), ids);
    assert_eq!(escrow.participant_escrow_ids(seller()), vec![ids[0], ids[2]]);
    assert_eq!(escrow.participant_escrow_ids(other_seller), vec![ids[1], ids[3]]);
}

#[test]
fn pagination_returns_sliced_pages_with_cursors() {
    let mut escrow = Escrow::new();
    let expected: Vec<u64> = (0..10).map(|_| create(&mut escrow, TIMEOUT)).collect();

    let page = escrow.escrows_for_participant(buyer(), 1, 3);
    assert_eq!(page.total, 10);
    assert_eq!(page.ids, expected[1..4].to_vec());
    assert_eq!(page.next_cursor, Some(4));

    let page = escrow.escrows_for_participant(buyer(), 9, 1);
    assert_eq!(page.ids, vec![expected[9]]);
    assert_eq!(page.next_cursor, None);

    let page = escrow.escrows_for_participant(buyer(), 12, 5);
    assert_eq!(page.total, 10);
    assert!(page.ids.is_empty());
    assert_eq!(page.next_cursor, None);
}

#[test]
fn pagination_iterates_every_created_id_exactly_once() {
    let mut escrow = Escrow::new();
    let expected: Vec<u64> = (0..26).map(|_| create(&mut escrow, TIMEOUT)).collect();
    let mut seen = vec![];
    let mut cursor = 0u32;
    loop {
        let page = escrow.escrows_for_participant(buyer(), cursor, 7);
        assert_eq!(page.total, 26);
        assert!(page.ids.len() <= 7);
        seen.extend(page.ids.iter().copied());
        match page.next_cursor {
            Some(next) => {
                assert!(next > cursor);
                cursor = next;
            }
            None => break,
        }
    }
    assert_eq!(seen, expected);
}

#[test]
fn zero_limit_returns_empty_page_without_residual_cursor() {
    let mut escrow = Escrow::new();
    create(&mut escrow, TIMEOUT);
    let page = escrow.escrows_for_participant(buyer(), 0, 0);
    assert_eq!(page.total, 1);
    assert!(page.ids.is_empty());
    assert_eq!(page.next_cursor, None);
}

#[test]
fn escrow_paginate_bounds() {
    let ids = vec![10u64, 20, 30];
    let p = paginate(&ids, 0, 2);
    assert_eq!((p.ids, p.total, p.next_cursor), (vec![10, 20], 3, Some(2)));
    let p = paginate(&ids, 2, u32::MAX);
    assert_eq!((p.ids, p.total, p.next_cursor), (vec![30], 3, None));
    let p = paginate(&ids, u32::MAX, u32::MAX);
    assert_eq!((p.ids, p.total, p.next_cursor), (vec![], 3, None));
}

#[test]
fn escrow_touch_ttl_keeps_state_intact() {
    let (escrow, _ledger, id) = funded(TIMEOUT);
    assert_eq!(escrow.touch_ttl(id), Ok(()));
    assert_eq!(escrow.get_status(id), Ok(EscrowStatus::Funded));
}

#[test]
fn escrow_release_partial_accumulates_and_completes_exactly() {
    let (mut escrow, mut ledger, id) = funded(TIMEOUT);
    run(&mut escrow, &mut ledger, |e| e.release_partial(id, 300)).unwrap();
    assert_eq!(ledger.balance(Holder::At(seller())), 300);
    assert_eq!(ledger.balance(CONTRACT), 700);
    let record = escrow.get_escrow(id).unwrap();
    assert_eq!((record.released, record.remaining()), (300, 700));
    assert_eq!(record.status, EscrowStatus::Funded);

    run(&mut escrow, &mut ledger, |e| e.release_partial(id, 300)).unwrap();
    assert_eq!(escrow.get_escrow(id).unwrap().released, 600);

    run(&mut escrow, &mut ledger, |e| e.release_partial(id, 400)).unwrap();
    let record = escrow.get_escrow(id).unwrap();
    assert_eq!((record.released, record.remaining()), (AMOUNT, 0));
    assert_eq!(record.status, EscrowStatus::Completed);
    assert_eq!(ledger.balance(Holder::At(seller())), AMOUNT);
    assert_eq!(
        run(&mut escrow, &mut ledger, |e| e.release_partial(id, 1)),
        Err(ForgeError::InvalidInput)
    );
}

#[test]
fn escrow_release_partial_rejects_bad_amounts() {
    let (mut escrow, mut ledger, id) = funded(TIMEOUT);
    for bad in [0, -5, AMOUNT + 1] {
        let out = escrow.release_partial(id, bad);
        assert_eq!(out.result, Err(ForgeError::InvalidInput));
        assert_eq!(out.auths, vec![seller()]);
    }
    run(&mut escrow, &mut ledger, |e| e.release_partial(id, 400)).unwrap();
    assert_eq!(
        run(&mut escrow, &mut ledger, |e| e.release_partial(id, 601)),
        Err(ForgeError::InvalidInput)
    );
    assert_eq!(ledger.balance(Holder::At(seller())), 400);
    assert_eq!(ledger.balance(CONTRACT), 600);

    let mut pending = Escrow::new();
    let pid = create(&mut pending, TIMEOUT);
    assert_eq!(pending.release_partial(pid, 1).result, Err(ForgeError::InvalidInput));
}

#[test]
fn partial_release_then_refund_pays_only_remaining() {
    let (mut escrow, mut ledger, id) = funded(TIMEOUT);
    run(&mut escrow, &mut ledger, |e| e.release_partial(id, 400)).unwrap();
    run(&mut escrow, &mut ledger, |e| e.refund(id, START)).unwrap();
    assert_eq!(ledger.balance(Holder::At(seller())), 400);
    assert_eq!(ledger.balance(Holder::At(buyer())), 600);
    assert_eq!(ledger.balance(CONTRACT), 0);
    assert_eq!(escrow.get_status(id), Ok(EscrowStatus::Refunded));
}

#[test]
fn conservation_holds_on_every_terminal_path() {
    type Path = fn(&mut Escrow, &mut Ledger, u64);
    let paths: [Path; 10] = [
        |e, l, id| run(e, l, |x| x.release(id)).unwrap(),
        |e, l, id| run(e, l, |x| x.refund(id, START)).unwrap(),
        |e, l, id| run(e, l, |x| x.refund(id, START + 100_001)).unwrap(),
        |e, l, id| {
            run(e, l, |x| x.dispute(id, buyer())).unwrap();
            run(e, l, |x| x.resolve(id, true)).unwrap();
        },
        |e, l, id| {
            run(e, l, |x| x.dispute(id, seller())).unwrap();
            run(e, l, |x| x.resolve(id, false)).unwrap();
        },
        |e, l, id| {
            run(e, l, |x| x.release_partial(id, AMOUNT / 2)).unwrap();
            run(e, l, |x| x.release(id)).unwrap();
        },
        |e, l, id| {
            run(e, l, |x| x.release_partial(id, AMOUNT / 3)).unwrap();
            run(e, l, |x| x.refund(id, START)).unwrap();
        },
        |e, l, id| {
            run(e, l, |x| x.release_partial(id, AMOUNT / 4)).unwrap();
            run(e, l, |x| x.dispute(id, buyer())).unwrap();
            run(e, l, |x| x.resolve(id, true)).unwrap();
        },
        |e, l, id| {
            run(e, l, |x| x.release_partial(id, AMOUNT / 4)).unwrap();
            run(e, l, |x| x.dispute(id, seller())).unwrap();
            run(e, l, |x| x.resolve(id, false)).unwrap();
        },
        |e, l, id| {
            run(e, l, |x| x.release_partial(id, AMOUNT / 2)).unwrap();
            run(e, l, |x| x.release_partial(id, AMOUNT - AMOUNT / 2)).unwrap();
        },
    ];
    for timeout in [1u64, 10, TIMEOUT, 100_000] {
        for path in paths.iter() {
            let (mut escrow, mut ledger, id) = funded(timeout);
            path(&mut escrow, &mut ledger, id);
            assert_eq!(ledger.balance(CONTRACT), 0);
            assert_eq!(ledger.balance(Holder::At(buyer())) + ledger.balance(Holder::At(seller())), AMOUNT);
            assert_eq!(escrow.deposit(id).result, Err(ForgeError::InvalidInput));
        }
    }
}

#[test]
fn escrow_upgrade_of_old_record_has_nothing_released() {
    let old = EscrowDataV1 {
        escrow_id: 1,
        buyer: buyer(),
        seller: seller(),
        arbiter: arbiter(),
        token: token(),
        amount: AMOUNT,
        timeout: TIMEOUT,
        status: EscrowStatus::Funded,
        created_at: START,
    };
    let record: EscrowData = old.upgrade();
    assert_eq!(record.released, 0);
    assert_eq!(record.remaining(), AMOUNT);
    assert!(Escrow::from_records(vec![record]).is_some());
}

#[test]
fn escrow_from_records_refuses_broken_tables() {
    let mut escrow = Escrow::new();
    create(&mut escrow, TIMEOUT);
    let good = escrow.records()[0];
    let wrong_id = EscrowData { escrow_id: 7, ..good };
    assert!(Escrow::from_records(vec![wrong_id]).is_none());
    let over_released = EscrowData { released: AMOUNT + 1, ..good };
    assert!(Escrow::from_records(vec![over_released]).is_none());
    let completed_short = EscrowData { status: EscrowStatus::Completed, released: 1, ..good };
    assert!(Escrow::from_records(vec![completed_short]).is_none());
}
