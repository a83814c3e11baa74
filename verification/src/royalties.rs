//! Creator royalty splits on secondary sales.
//!
//! ```text
//! set_royalty(collection, recipient, bps)   -> Active config
//! distribute(collection, seller, amount)    -> the seller's net after
//!                                              `amount * bps / 10_000`
//! settle_sale(...)                          -> pays the seller's net, then the
//!                                              royalty share, then commits the
//!                                              settlement totals
//! settle_sales(..., sales)                  -> validates the whole batch before
//!                                              any token moves, pays every sale
//!                                              in order, commits the totals once
//! ```
//!
//! A split always adds up: `royalty_share + seller_net == amount`, with the
//! share floored and never more than the amount.
use vstd::prelude::*;
use vstd::arithmetic::div_mod::{lemma_div_is_ordered, lemma_div_multiples_vanish, lemma_div_pos_is_pos};
use vstd::arithmetic::mul::{lemma_mul_inequality, lemma_mul_nonnegative, lemma_mul_is_commutative};
use crate::errors::ForgeError;
use crate::types::Address;
use crate::effects::{fails_with, lemma_transfer_total_concat, transfer_call, transfer_total, Holder, HostCall, Outcome};
use crate::keyed::{get_value, lemma_lookup_some, lookup, put_value};

verus! {

/// Most sales one `settle_sales` call may settle.
pub const MAX_SETTLE_SALES: u32 = 20;

/// Basis points in one whole.
pub const BPS_DENOMINATOR: u32 = 10_000;

/// Lifecycle state of a royalty configuration.
#[derive(Clone, Copy, Debug, PartialEq, Eq, Structural)]
pub enum RoyaltyStatus {
    /// Applied to sales.
    Active,
    /// Sales settle to the seller in full.
    Disabled,
}

/// A royalty configuration for one collection.
#[derive(Clone, Copy, Debug, PartialEq, Eq, Structural)]
pub struct Royalty {
    /// Collection (NFT contract) this configuration applies to.
    pub collection: Address,
    /// Address entitled to royalty payments.
    pub recipient: Address,
    /// Royalty rate in basis points (100 bps = 1%).
    pub bps: u32,
    pub status: RoyaltyStatus,
}

/// The two amounts one settled sale transferred.
#[derive(Clone, Copy, Debug, PartialEq, Eq, Structural)]
pub struct Settlement {
    /// Amount transferred to the royalty recipient.
    pub royalty_share: i128,
    /// Amount transferred to the seller.
    pub seller_net: i128,
}

/// Cumulative settlement totals for one collection.
#[derive(Clone, Copy, Debug, PartialEq, Eq, Structural)]
pub struct SettlementSummary {
    /// Number of sales settled so far.
    pub sales: u32,
    /// Sum of every settled sale amount.
    pub gross_volume: i128,
    /// Sum of every royalty share transferred.
    pub royalties_paid: i128,
}

/// The mathematical content of the royalties contract.
pub struct RoyaltiesView {
    pub royalties: Seq<(Address, Royalty)>,
    pub summaries: Seq<(Address, SettlementSummary)>,
}

/// The rate applied under `r`: none once disabled.
pub open spec fn bps_applied(r: Royalty) -> u32 {
    match r.status {
        RoyaltyStatus::Active => r.bps,
        RoyaltyStatus::Disabled => 0,
    }
}

/// The royalty share of `amount` at `bps`: `amount * bps / 10_000`, floored.
pub open spec fn share_of(amount: int, bps: int) -> int {
    (amount * bps) / 10_000
}

/// The settlement of one sale of `amount` at `bps`.
pub open spec fn settlement_of(amount: int, bps: int) -> Settlement {
    Settlement {
        royalty_share: share_of(amount, bps) as i128,
        seller_net: (amount - share_of(amount, bps)) as i128,
    }
}

/// The transfers that settle one sale: the seller's net first, the royalty
/// last, each only when positive.
pub open spec fn sale_calls(
    token: Address,
    payer: Address,
    seller: Address,
    recipient: Address,
    st: Settlement,
) -> Seq<HostCall> {
    (if st.seller_net > 0 {
        seq![transfer_call(token, Holder::At(payer), Holder::At(seller), st.seller_net)]
    } else {
        Seq::empty()
    }) + (if st.royalty_share > 0 {
        seq![transfer_call(token, Holder::At(payer), Holder::At(recipient), st.royalty_share)]
    } else {
        Seq::empty()
    })
}

/// The sum of the sale amounts.
pub open spec fn batch_gross(sales: Seq<(Address, i128)>) -> int
    decreases sales.len(),
{
    if sales.len() == 0 {
        0
    } else {
        batch_gross(sales.drop_last()) + sales.last().1
    }
}

/// The sum of the royalty shares.
pub open spec fn batch_royalties(sales: Seq<(Address, i128)>, bps: int) -> int
    decreases sales.len(),
{
    if sales.len() == 0 {
        0
    } else {
        batch_royalties(sales.drop_last(), bps) + share_of(sales.last().1 as int, bps)
    }
}

/// Every sale's `amount * bps` fits in an `i128`.
pub open spec fn batch_fits(sales: Seq<(Address, i128)>, bps: int) -> bool {
    forall|i: int| 0 <= i < sales.len() ==> (#[trigger] sales[i]).1 * bps <= i128::MAX
}

/// The settlements of a batch, in sale order.
pub open spec fn batch_settlements(sales: Seq<(Address, i128)>, bps: int) -> Seq<Settlement> {
    Seq::new(sales.len(), |i: int| settlement_of(sales[i].1 as int, bps))
}

/// The transfers that settle a batch, sale by sale.
pub open spec fn batch_calls(
    token: Address,
    payer: Address,
    recipient: Address,
    sales: Seq<(Address, i128)>,
    bps: int,
) -> Seq<HostCall>
    decreases sales.len(),
{
    if sales.len() == 0 {
        Seq::empty()
    } else {
        batch_calls(token, payer, recipient, sales.drop_last(), bps) + sale_calls(
            token,
            payer,
            sales.last().0,
            recipient,
            settlement_of(sales.last().1 as int, bps),
        )
    }
}

/// The totals after adding `n` sales worth `gross` with `royalties`
/// reserved, or `None` when a total would overflow.
pub open spec fn summary_after(
    current: Option<SettlementSummary>,
    n: int,
    gross: int,
    royalties: int,
) -> Option<SettlementSummary> {
    match current {
        None => Some(
            SettlementSummary {
                sales: n as u32,
                gross_volume: gross as i128,
                royalties_paid: royalties as i128,
            },
        ),
        Some(t) => if t.sales + n > u32::MAX || t.gross_volume + gross > i128::MAX
            || t.royalties_paid + royalties > i128::MAX {
            None
        } else {
            Some(
                SettlementSummary {
                    sales: (t.sales + n) as u32,
                    gross_volume: (t.gross_volume + gross) as i128,
                    royalties_paid: (t.royalties_paid + royalties) as i128,
                },
            )
        },
    }
}

/// The totals after settling one sale of `amount` at `bps` on top of
/// `current`, or `None` when the sale cannot settle because `amount * bps`
/// or a total would overflow.
pub open spec fn sale_summary(current: Option<SettlementSummary>, amount: int, bps: int) -> Option<
    SettlementSummary,
> {
    if amount * bps > i128::MAX {
        None
    } else {
        summary_after(current, 1, amount, share_of(amount, bps))
    }
}

/// The totals after settling the batch `sales` at `bps` on top of
/// `current`, or `None` when a split or a total would overflow.
pub open spec fn batch_summary(
    current: Option<SettlementSummary>,
    sales: Seq<(Address, i128)>,
    bps: int,
) -> Option<SettlementSummary> {
    if !batch_fits(sales, bps) || batch_gross(sales) > i128::MAX || batch_royalties(sales, bps)
        > i128::MAX {
        None
    } else {
        summary_after(current, sales.len() as int, batch_gross(sales), batch_royalties(sales, bps))
    }
}

/// The totals after settling each sale of a nonempty `sales` with its own
/// `settle_sale` call, in order, or `None` once one of them fails.
pub open spec fn singles_summary(
    current: Option<SettlementSummary>,
    sales: Seq<(Address, i128)>,
    bps: int,
) -> Option<SettlementSummary>
    decreases sales.len(),
{
    if sales.len() <= 1 {
        sale_summary(current, sales.last().1 as int, bps)
    } else {
        match singles_summary(current, sales.drop_last(), bps) {
            None => None,
            Some(t) => sale_summary(Some(t), sales.last().1 as int, bps),
        }
    }
}

/// The royalties contract invariant: every stored rate is at most 100%
/// and every total is non-negative.
pub open spec fn royalties_wf(v: RoyaltiesView) -> bool {
    &&& forall|c: Address| #[trigger] lookup(v.royalties, c) matches Some(r) ==> r.bps <= 10_000
    &&& forall|c: Address| #[trigger]
        lookup(v.summaries, c) matches Some(t) ==> t.gross_volume >= 0 && t.royalties_paid >= 0
}

/// The share is floored, non-negative and at most the amount, so the two
/// parts of a split add up to the amount.
pub proof fn lemma_share_bounds(amount: int, bps: int)
    requires
        amount > 0,
        0 <= bps <= 10_000,
    ensures
        0 <= share_of(amount, bps) <= amount,
{
    lemma_mul_nonnegative(amount, bps);
    lemma_div_pos_is_pos(amount * bps, 10_000);
    lemma_mul_inequality(bps, 10_000, amount);
    lemma_mul_is_commutative(bps, amount);
    lemma_mul_is_commutative(10_000, amount);
    lemma_div_is_ordered(amount * bps, amount * 10_000, 10_000);
    lemma_div_multiples_vanish(amount, 10_000);
    lemma_mul_is_commutative(amount, 10_000);
}

/// `amount * bps / 10_000` with the quotient truncated toward zero, as
/// integer division does; it is `share_of` whenever the product is not
/// negative.
pub open spec fn truncated_share(amount: int, bps: int) -> int {
    if amount * bps >= 0 {
        (amount * bps) / 10_000
    } else {
        -((-(amount * bps)) / 10_000)
    }
}

/// Split `amount` at `bps` into `(royalty_share, seller_net)`: the share
/// is `amount * bps / 10_000` truncated, the seller keeps the rest, and
/// `ArithmeticOverflow` is returned when `amount * bps` does not fit.
pub fn split(amount: i128, bps: u32) -> (r: Result<(i128, i128), ForgeError>)
    ensures
        !(i128::MIN <= amount * bps <= i128::MAX) ==> r == Err::<(i128, i128), ForgeError>(
            ForgeError::ArithmeticOverflow,
        ),
        (i128::MIN <= amount * bps <= i128::MAX) ==> r == Ok::<(i128, i128), ForgeError>(
            (
                truncated_share(amount as int, bps as int) as i128,
                (amount - truncated_share(amount as int, bps as int)) as i128,
            ),
        ),
        amount > 0 && bps <= 10_000 ==> (r matches Ok((share, net)) ==> share == share_of(
            amount as int,
            bps as int,
        ) && share + net == amount && 0 <= share <= amount),
{
    proof {
        if amount >= 0 {
            lemma_mul_nonnegative(amount as int, bps as int);
        } else {
            assert(amount * bps <= 0) by (nonlinear_arith)
                requires
                    amount < 0,
                    bps >= 0,
            ;
        }
        if amount > 0 && bps <= 10_000 {
            lemma_share_bounds(amount as int, bps as int);
        }
    }
    let product = match amount.checked_mul(bps as i128) {
        None => return Err(ForgeError::ArithmeticOverflow),
        Some(p) => p,
    };
    let share: i128 = if product >= 0 {
        (product as u128 / 10_000u128) as i128
    } else {
        let magnitude: u128 = (0i128 - (product + 1)) as u128 + 1;
        let q: u128 = magnitude / 10_000u128;
        proof {
            assert(q <= magnitude);
            assert(magnitude == -(product as int));
        }
        0i128 - (q as i128)
    };
    proof {
        if product >= 0 {
            assert(share == truncated_share(amount as int, bps as int));
        } else {
            assert(share == truncated_share(amount as int, bps as int));
            assert(share <= 0 && share >= product);
        }
    }
    Ok((share, amount - share))
}

/// The state of the royalties contract: the configuration and the
/// settlement totals of each collection.
pub struct MarketplaceRoyalties {
    royalties: Vec<(Address, Royalty)>,
    summaries: Vec<(Address, SettlementSummary)>,
}

impl View for MarketplaceRoyalties {
    type V = RoyaltiesView;

    closed spec fn view(&self) -> RoyaltiesView {
        RoyaltiesView { royalties: self.royalties@, summaries: self.summaries@ }
    }
}

impl MarketplaceRoyalties {
    /// The contract invariant.
    pub open spec fn wf(&self) -> bool {
        royalties_wf(self@)
    }

    /// A contract with no configurations and no settlements.
    pub fn new() -> (m: Self)
        ensures
            m.wf(),
            forall|c: Address| lookup(m@.royalties, c) is None && lookup(m@.summaries, c) is None,
    {
        MarketplaceRoyalties { royalties: Vec::new(), summaries: Vec::new() }
    }

    /// Rebuild the contract from its stored configurations and totals,
    /// refusing any that break the invariant.
    pub fn from_parts(
        royalties: Vec<(Address, Royalty)>,
        summaries: Vec<(Address, SettlementSummary)>,
    ) -> (r: Option<Self>)
        ensures
            r matches Some(m) ==> m.wf() && m@ == (RoyaltiesView {
                royalties: royalties@,
                summaries: summaries@,
            }),
            r is None <==> !royalties_wf(
                RoyaltiesView { royalties: royalties@, summaries: summaries@ },
            ),
    {
        let mut i: usize = 0;
        while i < royalties.len()
            invariant
                i <= royalties@.len(),
                forall|j: int|
                    0 <= j < i ==> (lookup(royalties@, #[trigger] royalties@[j].0) matches Some(
                        roy,
                    ) ==> roy.bps <= 10_000),
            decreases royalties@.len() - i,
        {
            let key = royalties[i].0;
            match get_value(&royalties, &key) {
                Some(roy) => {
                    if roy.bps > 10_000 {
                        return None;
                    }
                },
                None => {},
            }
            i += 1;
        }
        let mut k: usize = 0;
        while k < summaries.len()
            invariant
                k <= summaries@.len(),
                forall|j: int|
                    0 <= j < k ==> (lookup(summaries@, #[trigger] summaries@[j].0) matches Some(t)
                        ==> t.gross_volume >= 0 && t.royalties_paid >= 0),
            decreases summaries@.len() - k,
        {
            let key = summaries[k].0;
            match get_value(&summaries, &key) {
                Some(t) => {
                    if t.gross_volume < 0 || t.royalties_paid < 0 {
                        return None;
                    }
                },
                None => {},
            }
            k += 1;
        }
        proof {
            assert forall|c: Address| #[trigger]
                lookup(royalties@, c) is Some implies lookup(royalties@, c)->Some_0.bps
                <= 10_000 by {
                lemma_lookup_some(royalties@, c);
                let j = choose|j: int|
                    0 <= j < royalties@.len() && royalties@[j].0 == c && royalties@[j].1 == lookup(
                        royalties@,
                        c,
                    )->Some_0;
                assert(lookup(royalties@, royalties@[j].0) == lookup(royalties@, c));
            }
            assert forall|c: Address| #[trigger]
                lookup(summaries@, c) is Some implies lookup(summaries@, c)->Some_0.gross_volume
                >= 0 && lookup(summaries@, c)->Some_0.royalties_paid >= 0 by {
                lemma_lookup_some(summaries@, c);
                let j = choose|j: int|
                    0 <= j < summaries@.len() && summaries@[j].0 == c && summaries@[j].1 == lookup(
                        summaries@,
                        c,
                    )->Some_0;
                assert(lookup(summaries@, summaries@[j].0) == lookup(summaries@, c));
            }
        }
        Some(MarketplaceRoyalties { royalties, summaries })
    }

    /// The stored configurations and totals.
    pub fn parts(&self) -> (r: (&Vec<(Address, Royalty)>, &Vec<(Address, SettlementSummary)>))
        ensures
            r.0@ == self@.royalties,
            r.1@ == self@.summaries,
    {
        (&self.royalties, &self.summaries)
    }

    /// Register or replace the royalty configuration of `collection`. The
    /// rate is at most 100% (10 000 bps); the collection authorizes.
    pub fn set_royalty(&mut self, collection: Address, recipient: Address, bps: u32) -> (r:
        Outcome<()>)
        requires
            old(self).wf(),
        ensures
            final(self).wf(),
            bps > 10_000 ==> fails_with(r, ForgeError::InvalidInput, seq![]) && final(self)@
                == old(self)@,
            bps <= 10_000 ==> {
                &&& r.result == Ok::<(), ForgeError>(())
                &&& r.auths@ == seq![collection]
                &&& r.calls@ == Seq::<HostCall>::empty()
                &&& final(self)@.summaries == old(self)@.summaries
                &&& forall|c: Address| #[trigger]
                    lookup(final(self)@.royalties, c) == if c == collection {
                        Some(Royalty { collection, recipient, bps, status: RoyaltyStatus::Active })
                    } else {
                        lookup(old(self)@.royalties, c)
                    }
            },
    {
        if bps > 10_000 {
            return Outcome::fail(ForgeError::InvalidInput, Vec::new());
        }
        put_value(
            &mut self.royalties,
            collection,
            Royalty { collection, recipient, bps, status: RoyaltyStatus::Active },
        );
        let mut auths: Vec<Address> = Vec::new();
        auths.push(collection);
        Outcome::ok((), auths, Vec::new())
    }

    /// The seller's net of a sale of `amount` (positive) under the stored
    /// configuration. Computes only; the collection authorizes.
    pub fn distribute(&self, collection: Address, seller: Address, amount: i128) -> (r: Outcome<
        i128,
    >)
        requires
            self.wf(),
        ensures
            match lookup(self@.royalties, collection) {
                None => fails_with(r, ForgeError::NotFound, seq![]),
                Some(roy) => if amount <= 0 {
                    fails_with(r, ForgeError::InvalidInput, seq![])
                } else if amount * bps_applied(roy) > i128::MAX {
                    fails_with(r, ForgeError::ArithmeticOverflow, seq![collection])
                } else {
                    &&& r.result == Ok::<i128, ForgeError>(
                        (amount - share_of(amount as int, bps_applied(roy) as int)) as i128,
                    )
                    &&& r.auths@ == seq![collection]
                    &&& r.calls@ == Seq::<HostCall>::empty()
                },
            },
    {
        let roy = match get_value(&self.royalties, &collection) {
            None => return Outcome::fail(ForgeError::NotFound, Vec::new()),
            Some(r) => r,
        };
        if amount <= 0 {
            return Outcome::fail(ForgeError::InvalidInput, Vec::new());
        }
        let mut auths: Vec<Address> = Vec::new();
        auths.push(collection);
        let bps = effective_bps(&roy);
        match split(amount, bps) {
            Err(e) => Outcome::fail(e, auths),
            Ok((_, net)) => Outcome::ok(net, auths, Vec::new()),
        }
    }

    fn next_summary(&self, collection: &Address, n: u32, gross: i128, royalties: i128) -> (r:
        Option<SettlementSummary>)
        requires
            self.wf(),
            gross >= 0,
            royalties >= 0,
        ensures
            r == summary_after(lookup(self@.summaries, *collection), n as int, gross as int, royalties as int),
    {
        match get_value(&self.summaries, collection) {
            None => Some(SettlementSummary { sales: n, gross_volume: gross, royalties_paid: royalties }),
            Some(t) => {
                let sales = match t.sales.checked_add(n) {
                    None => return None,
                    Some(x) => x,
                };
                let g = match t.gross_volume.checked_add(gross) {
                    None => return None,
                    Some(x) => x,
                };
                let ro = match t.royalties_paid.checked_add(royalties) {
                    None => return None,
                    Some(x) => x,
                };
                Some(SettlementSummary { sales, gross_volume: g, royalties_paid: ro })
            },
        }
    }

    /// Settle one sale of `collection` in `token`: `payer` pays the seller's
    /// net, then the royalty share to the recipient (each only when
    /// positive), and the collection's totals grow by one sale. The
    /// collection and the payer authorize.
    pub fn settle_sale(
        &mut self,
        collection: Address,
        token: Address,
        payer: Address,
        seller: Address,
        amount: i128,
    ) -> (r: Outcome<Settlement>)
        requires
            old(self).wf(),
        ensures
            final(self).wf(),
            match lookup(old(self)@.royalties, collection) {
                None => fails_with(r, ForgeError::NotFound, seq![]) && final(self)@ == old(self)@,
                Some(roy) => if amount <= 0 {
                    fails_with(r, ForgeError::InvalidInput, seq![]) && final(self)@ == old(self)@
                } else {
                    let bps = bps_applied(roy) as int;
                    let st = settlement_of(amount as int, bps);
                    let after = sale_summary(
                        lookup(old(self)@.summaries, collection),
                        amount as int,
                        bps,
                    );
                    if after is None {
                        fails_with(r, ForgeError::ArithmeticOverflow, seq![collection, payer])
                            && final(self)@ == old(self)@
                    } else {
                        &&& r.result == Ok::<Settlement, ForgeError>(st)
                        &&& r.auths@ == seq![collection, payer]
                        &&& r.calls@ == sale_calls(token, payer, seller, roy.recipient, st)
                        &&& final(self)@.royalties == old(self)@.royalties
                        &&& forall|c: Address| #[trigger]
                            lookup(final(self)@.summaries, c) == if c == collection {
                                after
                            } else {
                                lookup(old(self)@.summaries, c)
                            }
                    }
                },
            },
    {
        let roy = match get_value(&self.royalties, &collection) {
            None => return Outcome::fail(ForgeError::NotFound, Vec::new()),
            Some(r) => r,
        };
        if amount <= 0 {
            return Outcome::fail(ForgeError::InvalidInput, Vec::new());
        }
        let mut auths: Vec<Address> = Vec::new();
        auths.push(collection);
        auths.push(payer);
        assert(auths@ =~= seq![collection, payer]);
        let bps = effective_bps(&roy);
        let (share, net) = match split(amount, bps) {
            Err(e) => return Outcome::fail(e, auths),
            Ok(p) => p,
        };
        let summary = match self.next_summary(&collection, 1, amount, share) {
            None => return Outcome::fail(ForgeError::ArithmeticOverflow, auths),
            Some(t) => t,
        };
        let st = Settlement { royalty_share: share, seller_net: net };
        let calls = settlement_calls(token, payer, seller, roy.recipient, st);
        proof {
            lemma_share_bounds(amount as int, bps as int);
        }
        proof {
            let cur = lookup(old(self)@.summaries, collection);
            if cur is Some {
                assert(cur->Some_0.gross_volume >= 0);
            }
        }
        put_value(&mut self.summaries, collection, summary);
        Outcome::ok(st, auths, calls)
    }

    /// Settle a batch of at most [`MAX_SETTLE_SALES`] sales of `collection`
    /// in `token`, all-or-nothing. Every amount must be positive; every
    /// split and the batch totals are checked before any transfer; then
    /// each sale pays its seller and the recipient, in sale order, and the
    /// totals are committed once. The collection and the payer authorize.
    pub fn settle_sales(
        &mut self,
        collection: Address,
        token: Address,
        payer: Address,
        sales: Vec<(Address, i128)>,
    ) -> (r: Outcome<Vec<Settlement>>)
        requires
            old(self).wf(),
        ensures
            final(self).wf(),
            match lookup(old(self)@.royalties, collection) {
                None => fails_with(r, ForgeError::NotFound, seq![]) && final(self)@ == old(self)@,
                Some(roy) => if sales@.len() == 0 || sales@.len() > MAX_SETTLE_SALES || exists|
                    i: int,
                | 0 <= i < sales@.len() && (#[trigger] sales@[i]).1 <= 0 {
                    fails_with(r, ForgeError::InvalidInput, seq![]) && final(self)@ == old(self)@
                } else {
                    let bps = bps_applied(roy) as int;
                    let after = batch_summary(lookup(old(self)@.summaries, collection), sales@, bps);
                    if after is None {
                        fails_with(r, ForgeError::ArithmeticOverflow, seq![collection, payer])
                            && final(self)@ == old(self)@
                    } else {
                        &&& r.result matches Ok(v) && v@ == batch_settlements(sales@, bps)
                        &&& r.auths@ == seq![collection, payer]
                        &&& r.calls@ == batch_calls(token, payer, roy.recipient, sales@, bps)
                        &&& final(self)@.royalties == old(self)@.royalties
                        &&& forall|c: Address| #[trigger]
                            lookup(final(self)@.summaries, c) == if c == collection {
                                after
                            } else {
                                lookup(old(self)@.summaries, c)
                            }
                    }
                },
            },
    {
        let roy = match get_value(&self.royalties, &collection) {
            None => return Outcome::fail(ForgeError::NotFound, Vec::new()),
            Some(r) => r,
        };
        let count = sales.len();
        if count == 0 || count > MAX_SETTLE_SALES as usize {
            return Outcome::fail(ForgeError::InvalidInput, Vec::new());
        }
        let mut i: usize = 0;
        while i < count
            invariant
                i <= count == sales@.len(),
                forall|j: int| 0 <= j < i ==> (#[trigger] sales@[j]).1 > 0,
                self@ == old(self)@,
                old(self).wf(),
                lookup(old(self)@.royalties, collection) == Some(roy),
                0 < count <= MAX_SETTLE_SALES,
            decreases count - i,
        {
            if sales[i].1 <= 0 {
                return Outcome::fail(ForgeError::InvalidInput, Vec::new());
            }
            i += 1;
        }
        let mut auths: Vec<Address> = Vec::new();
        auths.push(collection);
        auths.push(payer);
        assert(auths@ =~= seq![collection, payer]);
        let bps = effective_bps(&roy);
        proof {
            assert(bps <= 10_000);
        }
        let mut settlements: Vec<Settlement> = Vec::new();
        let mut gross: i128 = 0;
        let mut royalties: i128 = 0;
        let mut i: usize = 0;
        while i < count
            invariant
                i <= count == sales@.len(),
                0 < count <= MAX_SETTLE_SALES,
                bps <= 10_000,
                bps == bps_applied(roy),
                forall|j: int| 0 <= j < count ==> (#[trigger] sales@[j]).1 > 0,
                batch_fits(sales@.subrange(0, i as int), bps as int),
                0 <= gross,
                0 <= royalties,
                gross == batch_gross(sales@.subrange(0, i as int)),
                royalties == batch_royalties(sales@.subrange(0, i as int), bps as int),
                settlements@ == batch_settlements(sales@.subrange(0, i as int), bps as int),
                auths@ == seq![collection, payer],
                self@ == old(self)@,
                old(self).wf(),
                lookup(old(self)@.royalties, collection) == Some(roy),
            decreases count - i,
        {
            let amount = sales[i].1;
            proof {
                let pre = sales@.subrange(0, i as int);
                let nxt = sales@.subrange(0, i + 1);
                assert(nxt.drop_last() =~= pre);
                assert(nxt.last() == sales@[i as int]);
                assert(batch_gross(nxt) == gross + amount);
                assert(batch_royalties(nxt, bps as int) == royalties + share_of(amount as int, bps as int));
                lemma_batch_prefix(sales@, i + 1, bps as int);
                lemma_share_bounds(amount as int, bps as int);
                if amount * bps > i128::MAX {
                    assert(sales@[i as int].1 * bps > i128::MAX);
                }
            }
            let (share, net) = match split(amount, bps) {
                Err(e) => return Outcome::fail(e, auths),
                Ok(p) => p,
            };
            gross = match gross.checked_add(amount) {
                None => return Outcome::fail(ForgeError::ArithmeticOverflow, auths),
                Some(g) => g,
            };
            royalties = match royalties.checked_add(share) {
                None => return Outcome::fail(ForgeError::ArithmeticOverflow, auths),
                Some(x) => x,
            };
            settlements.push(Settlement { royalty_share: share, seller_net: net });
            proof {
                let nxt = sales@.subrange(0, i + 1);
                assert(settlements@ =~= batch_settlements(nxt, bps as int));
                assert forall|j: int| 0 <= j < nxt.len() implies (#[trigger] nxt[j]).1 * bps
                    <= i128::MAX by {
                    if j < i {
                        assert(sales@.subrange(0, i as int)[j] == nxt[j]);
                    }
                }
            }
            i += 1;
        }
        proof {
            assert(sales@.subrange(0, count as int) =~= sales@);
        }
        let summary = match self.next_summary(&collection, count as u32, gross, royalties) {
            None => return Outcome::fail(ForgeError::ArithmeticOverflow, auths),
            Some(t) => t,
        };
        let mut calls: Vec<HostCall> = Vec::new();
        let mut i: usize = 0;
        while i < count
            invariant
                i <= count == sales@.len() == settlements@.len(),
                settlements@ == batch_settlements(sales@, bps as int),
                calls@ == batch_calls(
                    token,
                    payer,
                    roy.recipient,
                    sales@.subrange(0, i as int),
                    bps as int,
                ),
            decreases count - i,
        {
            let st = settlements[i];
            let more = settlement_calls(token, payer, sales[i].0, roy.recipient, st);
            let mut k: usize = 0;
            let ghost before = calls@;
            while k < more.len()
                invariant
                    k <= more@.len(),
                    calls@ == before + more@.subrange(0, k as int),
                    forall|j: int| 0 <= j < more@.len() ==> (#[trigger] more@[j]) is Transfer,
                decreases more@.len() - k,
            {
                calls.push(more[k].clone_call());
                proof {
                    assert(calls@ =~= before + more@.subrange(0, k + 1));
                }
                k += 1;
            }
            proof {
                assert(more@.subrange(0, more@.len() as int) =~= more@);
                assert(sales@.subrange(0, i + 1).drop_last() =~= sales@.subrange(0, i as int));
            }
            i += 1;
        }
        proof {
            assert(sales@.subrange(0, count as int) =~= sales@);
        }
        proof {
            let cur = lookup(old(self)@.summaries, collection);
            if cur is Some {
                assert(cur->Some_0.gross_volume >= 0);
            }
        }
        put_value(&mut self.summaries, collection, summary);
        Outcome::ok(settlements, auths, calls)
    }

    /// The configuration of `collection`.
    pub fn get_royalty(&self, collection: Address) -> (r: Result<Royalty, ForgeError>)
        ensures
            r == match lookup(self@.royalties, collection) {
                Some(roy) => Ok::<Royalty, ForgeError>(roy),
                None => Err(ForgeError::NotFound),
            },
    {
        match get_value(&self.royalties, &collection) {
            Some(roy) => Ok(roy),
            None => Err(ForgeError::NotFound),
        }
    }

    /// The settlement totals of `collection`; `NotFound` before its first
    /// settlement.
    pub fn get_settlement_summary(&self, collection: Address) -> (r: Result<
        SettlementSummary,
        ForgeError,
    >)
        ensures
            r == match lookup(self@.summaries, collection) {
                Some(t) => Ok::<SettlementSummary, ForgeError>(t),
                None => Err(ForgeError::NotFound),
            },
    {
        match get_value(&self.summaries, &collection) {
            Some(t) => Ok(t),
            None => Err(ForgeError::NotFound),
        }
    }
}

/// The transfers that settle one sale.
fn settlement_calls(
    token: Address,
    payer: Address,
    seller: Address,
    recipient: Address,
    st: Settlement,
) -> (v: Vec<HostCall>)
    ensures
        v@ == sale_calls(token, payer, seller, recipient, st),
{
    let mut v: Vec<HostCall> = Vec::new();
    if st.seller_net > 0 {
        v.push(
            HostCall::Transfer {
                token,
                from: Holder::At(payer),
                to: Holder::At(seller),
                amount: st.seller_net,
            },
        );
    }
    if st.royalty_share > 0 {
        v.push(
            HostCall::Transfer {
                token,
                from: Holder::At(payer),
                to: Holder::At(recipient),
                amount: st.royalty_share,
            },
        );
    }
    proof {
        assert(v@ =~= sale_calls(token, payer, seller, recipient, st));
    }
    v
}

/// Prefix sums of a batch of positive sales never exceed the whole sums.
pub proof fn lemma_batch_prefix(sales: Seq<(Address, i128)>, i: int, bps: int)
    requires
        0 <= i <= sales.len(),
        0 <= bps <= 10_000,
        forall|j: int| 0 <= j < sales.len() ==> (#[trigger] sales[j]).1 > 0,
    ensures
        batch_gross(sales.subrange(0, i)) <= batch_gross(sales),
        batch_royalties(sales.subrange(0, i), bps) <= batch_royalties(sales, bps),
        batch_gross(sales.subrange(0, i)) >= 0,
        batch_royalties(sales.subrange(0, i), bps) >= 0,
    decreases sales.len() - i,
{
    if i == sales.len() {
        assert(sales.subrange(0, i) =~= sales);
        lemma_batch_nonneg(sales, bps);
    } else {
        let d = sales.drop_last();
        assert(forall|j: int| 0 <= j < d.len() ==> d[j] == sales[j]);
        lemma_batch_prefix(d, i, bps);
        assert(d.subrange(0, i) =~= sales.subrange(0, i));
        lemma_share_bounds(sales.last().1 as int, bps);
    }
}

proof fn lemma_batch_nonneg(sales: Seq<(Address, i128)>, bps: int)
    requires
        0 <= bps <= 10_000,
        forall|j: int| 0 <= j < sales.len() ==> (#[trigger] sales[j]).1 > 0,
    ensures
        batch_gross(sales) >= 0,
        batch_royalties(sales, bps) >= 0,
    decreases sales.len(),
{
    if sales.len() > 0 {
        let d = sales.drop_last();
        assert(forall|j: int| 0 <= j < d.len() ==> d[j] == sales[j]);
        lemma_batch_nonneg(d, bps);
        lemma_share_bounds(sales.last().1 as int, bps);
    }
}

/// The rate actually applied under `royalty`.
pub fn effective_bps(royalty: &Royalty) -> (b: u32)
    ensures
        b == bps_applied(*royalty),
{
    match royalty.status {
        RoyaltyStatus::Active => royalty.bps,
        RoyaltyStatus::Disabled => 0,
    }
}


/// The boundary rates: nothing is withheld at 0 bps, everything at
/// 10 000 bps.
pub proof fn lemma_boundary_rates(amount: int)
    ensures
        share_of(amount, 0) == 0,
        share_of(amount, 10_000) == amount,
        amount - share_of(amount, 0) == amount,
        amount - share_of(amount, 10_000) == 0,
{
    lemma_div_multiples_vanish(amount, 10_000);
    lemma_mul_is_commutative(amount, 10_000);
}

/// Settling one sale moves exactly the sale amount out of the payer's
/// account: the seller's net plus the royalty share.
pub proof fn lemma_sale_pays_the_amount(
    token: Address,
    payer: Address,
    seller: Address,
    recipient: Address,
    amount: int,
    bps: int,
)
    requires
        0 < amount <= i128::MAX,
        0 <= bps <= 10_000,
    ensures
        transfer_total(sale_calls(token, payer, seller, recipient, settlement_of(amount, bps)))
            == amount,
{
    lemma_share_bounds(amount, bps);
    let st = settlement_of(amount, bps);
    let a = if st.seller_net > 0 {
        seq![transfer_call(token, Holder::At(payer), Holder::At(seller), st.seller_net)]
    } else {
        Seq::<HostCall>::empty()
    };
    let b = if st.royalty_share > 0 {
        seq![transfer_call(token, Holder::At(payer), Holder::At(recipient), st.royalty_share)]
    } else {
        Seq::<HostCall>::empty()
    };
    lemma_transfer_total_concat(a, b);
    assert(transfer_total(Seq::<HostCall>::empty()) == 0);
    if st.seller_net > 0 {
        assert(a.drop_last() =~= Seq::<HostCall>::empty());
    }
    if st.royalty_share > 0 {
        assert(b.drop_last() =~= Seq::<HostCall>::empty());
    }
    assert(transfer_total(a) == st.seller_net);
    assert(transfer_total(b) == st.royalty_share);
    assert(sale_calls(token, payer, seller, recipient, st) == a + b);
}

/// Settling a batch moves exactly its gross out of the payer's account,
/// however the sales split.
pub proof fn lemma_batch_pays_the_gross(
    token: Address,
    payer: Address,
    recipient: Address,
    sales: Seq<(Address, i128)>,
    bps: int,
)
    requires
        0 <= bps <= 10_000,
        forall|j: int| 0 <= j < sales.len() ==> (#[trigger] sales[j]).1 > 0,
    ensures
        transfer_total(batch_calls(token, payer, recipient, sales, bps)) == batch_gross(sales),
    decreases sales.len(),
{
    if sales.len() > 0 {
        let d = sales.drop_last();
        assert(forall|j: int| 0 <= j < d.len() ==> d[j] == sales[j]);
        lemma_batch_pays_the_gross(token, payer, recipient, d, bps);
        let last = sales.last();
        lemma_sale_pays_the_amount(token, payer, last.0, recipient, last.1 as int, bps);
        lemma_transfer_total_concat(
            batch_calls(token, payer, recipient, d, bps),
            sale_calls(token, payer, last.0, recipient, settlement_of(last.1 as int, bps)),
        );
    }
}


/// The batch sums of a prefix grow by the next sale.
proof fn lemma_batch_step(sales: Seq<(Address, i128)>, bps: int)
    requires
        sales.len() > 0,
    ensures
        batch_gross(sales) == batch_gross(sales.drop_last()) + sales.last().1,
        batch_royalties(sales, bps) == batch_royalties(sales.drop_last(), bps) + share_of(
            sales.last().1 as int,
            bps,
        ),
        batch_fits(sales, bps) <==> batch_fits(sales.drop_last(), bps) && sales.last().1 * bps
            <= i128::MAX,
{
    let d = sales.drop_last();
    assert forall|i: int| 0 <= i < d.len() implies #[trigger] d[i] == sales[i] by {}
    if batch_fits(d, bps) && sales.last().1 * bps <= i128::MAX {
        assert forall|i: int| 0 <= i < sales.len() implies (#[trigger] sales[i]).1 * bps
            <= i128::MAX by {
            if i < d.len() {
                assert(d[i] == sales[i]);
            }
        }
    }
    if batch_fits(sales, bps) {
        assert(sales[sales.len() - 1].1 * bps <= i128::MAX);
        assert forall|i: int| 0 <= i < d.len() implies (#[trigger] d[i]).1 * bps
            <= i128::MAX by {
            assert(sales[i].1 * bps <= i128::MAX);
        }
    }
}

/// A batch settles as its sales would one by one. Settle a batch of at
/// most [`MAX_SETTLE_SALES`] positive sales at a rate of at most 100% on
/// top of valid totals `current`, or settle the same sales with one
/// `settle_sale` call each, in order: the single calls all succeed exactly
/// when the batch does, and they leave the same totals. Each settlement of
/// the batch is the one its sale gets alone, and the transfers of the batch
/// are, by `batch_calls`, those of the single sales in the same order.
pub proof fn lemma_batch_is_singles(
    current: Option<SettlementSummary>,
    sales: Seq<(Address, i128)>,
    bps: int,
)
    requires
        1 <= sales.len() <= MAX_SETTLE_SALES,
        0 <= bps <= 10_000,
        forall|i: int| 0 <= i < sales.len() ==> (#[trigger] sales[i]).1 > 0,
        current matches Some(t) ==> t.gross_volume >= 0 && t.royalties_paid >= 0,
    ensures
        singles_summary(current, sales, bps) == batch_summary(current, sales, bps),
        forall|i: int|
            0 <= i < sales.len() ==> #[trigger] batch_settlements(sales, bps)[i]
                == settlement_of(sales[i].1 as int, bps),
    decreases sales.len(),
{
    let x = sales.last().1 as int;
    assert(sales[sales.len() - 1].1 > 0);
    lemma_share_bounds(x, bps);
    lemma_batch_step(sales, bps);
    let d = sales.drop_last();
    if sales.len() == 1 {
        assert(d.len() == 0);
        assert(batch_fits(d, bps));
    } else {
        assert forall|i: int| 0 <= i < d.len() implies (#[trigger] d[i]).1 > 0 by {
            assert(sales[i].1 > 0);
        }
        lemma_batch_is_singles(current, d, bps);
        lemma_batch_nonneg(d, bps);
    }
}

} // verus!
