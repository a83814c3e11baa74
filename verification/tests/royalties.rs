use soroban_forge::effects::{Holder, HostCall};
use soroban_forge::errors::ForgeError;
use soroban_forge::royalties::{
    effective_bps, split, MarketplaceRoyalties, Royalty, RoyaltyStatus, Settlement,
    SettlementSummary, MAX_SETTLE_SALES,
};
use soroban_forge::types::Address;

fn payer() -> Address {
    Address::account(1)
}
fn recipient() -> Address {
    Address::account(2)
}
fn seller() -> Address {
    Address::account(3)
}
fn seller2() -> Address {
    Address::account(4)
}
fn collection() -> Address {
    Address::contract(90)
}
fn token() -> Address {
    Address::contract(91)
}

fn setup() -> MarketplaceRoyalties {
    let mut m = MarketplaceRoyalties::new();
    m.set_royalty(collection(), recipient(), 500).result.unwrap();
    m
}

fn transfers(calls: &[HostCall]) -> Vec<(Address, i128)> {
    calls
        .iter()
        .map(|c| match c {
            HostCall::Transfer { token: t, from, to: Holder::At(to), amount } => {
                assert_eq!(*t, token());
                assert_eq!(*from, Holder::At(payer()));
                (*to, *amount)
            }
            _ => panic!("expected a payer transfer"),
        })
        .collect()
}

#[test]
fn royalties_set_royalty_stores_and_updates_config() {
    let mut m = setup();
    assert_eq!(
        m.get_royalty(collection()),
        Ok(Royalty { collection: collection(), recipient: recipient(), bps: 500, status: RoyaltyStatus::Active })
    );
    let out = m.set_royalty(collection(), seller(), 250);
    assert_eq!(out.auths, vec![collection()]);
    let r = m.get_royalty(collection()).unwrap();
    assert_eq!((r.recipient, r.bps), (seller(), 250));
}

#[test]
fn set_royalty_rejects_bps_over_100_percent() {
    let mut m = setup();
    let out = m.set_royalty(collection(), recipient(), 10_001);
    assert_eq!(out.result, Err(ForgeError::InvalidInput));
    assert_eq!(m.get_royalty(collection()).unwrap().bps, 500);
    assert_eq!(m.set_royalty(collection(), recipient(), 10_000).result, Ok(()));
}

#[test]
fn royalties_distribute_returns_the_net() {
    let mut m = setup();
    assert_eq!(m.distribute(collection(), seller(), 1_000).result, Ok(950));
    m.set_royalty(collection(), recipient(), 0);
    assert_eq!(m.distribute(collection(), seller(), 1_000).result, Ok(1_000));
    m.set_royalty(collection(), recipient(), 10_000);
    assert_eq!(m.distribute(collection(), seller(), 1_000).result, Ok(0));
    assert_eq!(m.distribute(collection(), seller(), 0).result, Err(ForgeError::InvalidInput));
    assert_eq!(m.distribute(collection(), seller(), -1).result, Err(ForgeError::InvalidInput));
    assert_eq!(m.distribute(Address::contract(5), seller(), 10).result, Err(ForgeError::NotFound));
    assert_eq!(m.get_royalty(Address::contract(5)), Err(ForgeError::NotFound));
}

#[test]
fn royalties_distribute_overflow_is_reported() {
    let m = setup();
    let out = m.distribute(collection(), seller(), i128::MAX);
    assert_eq!(out.result, Err(ForgeError::ArithmeticOverflow));
    assert_eq!(out.auths, vec![collection()]);
}

#[test]
fn royalties_split_floors_and_adds_up() {
    assert_eq!(split(1_000, 500), Ok((50, 950)));
    assert_eq!(split(999, 333), Ok((33, 966)));
    assert_eq!(split(1, 9_999), Ok((0, 1)));
    assert_eq!(split(7, 10_000), Ok((7, 0)));
    assert_eq!(split(i128::MAX, 2), Err(ForgeError::ArithmeticOverflow));
    assert_eq!(split(i128::MIN, 2), Err(ForgeError::ArithmeticOverflow));
    assert_eq!(split(-999, 333), Ok((-33, -966)));
    assert_eq!(split(100, 20_000), Ok((200, -100)));
    assert_eq!(split(i128::MIN, 1), Ok((i128::MIN / 10_000, i128::MIN - i128::MIN / 10_000)));
    for amount in [1i128, 2, 3, 99, 10_001, 123_457] {
        for bps in [0u32, 1, 250, 5_000, 9_999, 10_000] {
            let (share, net) = split(amount, bps).unwrap();
            assert_eq!(share + net, amount);
            assert!(0 <= share && share <= amount);
        }
    }
}

#[test]
fn royalties_disabled_rate_is_zero() {
    let active = Royalty { collection: collection(), recipient: recipient(), bps: 500, status: RoyaltyStatus::Active };
    let disabled = Royalty { status: RoyaltyStatus::Disabled, ..active };
    assert_eq!(effective_bps(&active), 500);
    assert_eq!(effective_bps(&disabled), 0);
}

#[test]
fn royalties_settle_sale_pays_seller_then_recipient_and_records_totals() {
    let mut m = setup();
    let out = m.settle_sale(collection(), token(), payer(), seller(), 1_000);
    assert_eq!(out.result, Ok(Settlement { royalty_share: 50, seller_net: 950 }));
    assert_eq!(out.auths, vec![collection(), payer()]);
    assert_eq!(transfers(&out.calls), vec![(seller(), 950), (recipient(), 50)]);
    assert_eq!(
        m.get_settlement_summary(collection()),
        Ok(SettlementSummary { sales: 1, gross_volume: 1_000, royalties_paid: 50 })
    );
    m.settle_sale(collection(), token(), payer(), seller(), 200);
    assert_eq!(
        m.get_settlement_summary(collection()),
        Ok(SettlementSummary { sales: 2, gross_volume: 1_200, royalties_paid: 60 })
    );
}

#[test]
fn royalties_settle_zero_and_full_rates_skip_the_empty_side() {
    let mut m = setup();
    m.set_royalty(collection(), recipient(), 0);
    let out = m.settle_sale(collection(), token(), payer(), seller(), 1_000);
    assert_eq!(transfers(&out.calls), vec![(seller(), 1_000)]);
    m.set_royalty(collection(), recipient(), 10_000);
    let out = m.settle_sale(collection(), token(), payer(), seller(), 1_000);
    assert_eq!(out.result, Ok(Settlement { royalty_share: 1_000, seller_net: 0 }));
    assert_eq!(transfers(&out.calls), vec![(recipient(), 1_000)]);
}

#[test]
fn royalties_settle_rejections() {
    let mut m = setup();
    let out = m.settle_sale(collection(), token(), payer(), seller(), 0);
    assert_eq!(out.result, Err(ForgeError::InvalidInput));
    assert!(out.calls.is_empty());
    assert_eq!(m.settle_sale(Address::contract(5), token(), payer(), seller(), 5).result, Err(ForgeError::NotFound));
    let over = m.settle_sale(collection(), token(), payer(), seller(), i128::MAX);
    assert_eq!(over.result, Err(ForgeError::ArithmeticOverflow));
    assert!(over.calls.is_empty());
    assert_eq!(m.get_settlement_summary(collection()), Err(ForgeError::NotFound));
}

#[test]
fn royalties_settle_sales_pays_every_sale_and_commits_once() {
    let mut m = setup();
    let out = m.settle_sales(collection(), token(), payer(), vec![(seller(), 100), (seller2(), 300)]);
    assert_eq!(
        out.result.unwrap(),
        vec![
            Settlement { royalty_share: 5, seller_net: 95 },
            Settlement { royalty_share: 15, seller_net: 285 },
        ]
    );
    assert_eq!(out.auths, vec![collection(), payer()]);
    assert_eq!(
        transfers(&out.calls),
        vec![(seller(), 95), (recipient(), 5), (seller2(), 285), (recipient(), 15)]
    );
    assert_eq!(
        m.get_settlement_summary(collection()),
        Ok(SettlementSummary { sales: 2, gross_volume: 400, royalties_paid: 20 })
    );
}

#[test]
fn settle_sales_matches_single_sale_splits_and_totals() {
    let amounts = [1i128, 17, 333, 1_000, 9_999];
    let mut single = setup();
    let mut batched = setup();
    let mut singles = vec![];
    for a in amounts {
        singles.push(single.settle_sale(collection(), token(), payer(), seller(), a).result.unwrap());
    }
    let batch = batched
        .settle_sales(collection(), token(), payer(), amounts.iter().map(|a| (seller(), *a)).collect())
        .result
        .unwrap();
    assert_eq!(batch, singles);
    assert_eq!(single.get_settlement_summary(collection()), batched.get_settlement_summary(collection()));
}

#[test]
fn royalties_settle_sales_cap_and_validation() {
    let mut m = setup();
    let at_cap: Vec<(Address, i128)> = (0..MAX_SETTLE_SALES).map(|_| (seller(), 10)).collect();
    assert!(m.settle_sales(collection(), token(), payer(), at_cap).result.is_ok());
    let over: Vec<(Address, i128)> = (0..=MAX_SETTLE_SALES).map(|_| (seller(), 10)).collect();
    let out = m.settle_sales(collection(), token(), payer(), over);
    assert_eq!(out.result, Err(ForgeError::InvalidInput));
    assert!(out.calls.is_empty());
    assert_eq!(m.settle_sales(collection(), token(), payer(), vec![]).result, Err(ForgeError::InvalidInput));
    assert_eq!(
        m.settle_sales(collection(), token(), payer(), vec![(seller(), 5), (seller(), 0), (seller(), 5)]).result,
        Err(ForgeError::InvalidInput)
    );
    assert_eq!(
        m.settle_sales(Address::contract(5), token(), payer(), vec![(seller(), 5)]).result,
        Err(ForgeError::NotFound)
    );
    assert_eq!(m.get_settlement_summary(collection()).unwrap().sales, MAX_SETTLE_SALES);
}

#[test]
fn settle_sales_aggregate_overflow_keeps_the_prior_summary() {
    let mut m = setup();
    m.set_royalty(collection(), recipient(), 0);
    m.settle_sale(collection(), token(), payer(), seller(), 100);
    let out = m.settle_sales(collection(), token(), payer(), vec![(seller(), i128::MAX)]);
    assert_eq!(out.result, Err(ForgeError::ArithmeticOverflow));
    assert!(out.calls.is_empty());
    assert_eq!(
        m.get_settlement_summary(collection()),
        Ok(SettlementSummary { sales: 1, gross_volume: 100, royalties_paid: 0 })
    );
}

#[test]
fn settle_sales_zero_bps_batch_skips_the_recipient() {
    let mut m = setup();
    m.set_royalty(collection(), recipient(), 0);
    let out = m.settle_sales(collection(), token(), payer(), vec![(seller(), 10), (seller2(), 20)]);
    assert_eq!(transfers(&out.calls), vec![(seller(), 10), (seller2(), 20)]);
}

#[test]
fn royalties_from_parts_checks_rates_and_totals() {
    let mut m = setup();
    m.settle_sale(collection(), token(), payer(), seller(), 100);
    let (royalties, summaries) = m.parts();
    let rebuilt = MarketplaceRoyalties::from_parts(royalties.clone(), summaries.clone()).unwrap();
    assert_eq!(rebuilt.get_settlement_summary(collection()).unwrap().sales, 1);
    let too_high = Royalty { collection: collection(), recipient: recipient(), bps: 10_001, status: RoyaltyStatus::Active };
    assert!(MarketplaceRoyalties::from_parts(vec![(collection(), too_high)], vec![]).is_none());
    let negative = SettlementSummary { sales: 1, gross_volume: -1, royalties_paid: 0 };
    assert!(MarketplaceRoyalties::from_parts(vec![], vec![(collection(), negative)]).is_none());
}

#[test]
fn royalties_batch_moves_exactly_its_gross() {
    let mut m = setup();
    let sales = vec![(seller(), 7), (seller2(), 1_999), (seller(), 10_001)];
    let gross: i128 = sales.iter().map(|(_, a)| *a).sum();
    let out = m.settle_sales(collection(), token(), payer(), sales);
    let moved: i128 = transfers(&out.calls).iter().map(|(_, a)| *a).sum();
    assert_eq!(moved, gross);
}
