//! A three-party escrow that custodies one SEP-41 token.
//!
//! ```text
//! Pending --deposit--> Funded --release_partial (xn)--> Funded
//!                     |                                  |
//!                     |                                  +--> Completed (final partial)
//!                     |        --release--> Completed
//!                     |        --refund--> Refunded   (remaining only)
//!                     |        --dispute--> Disputed --resolve--> Completed | Refunded
//!          --cancel--> Cancelled (before funding only)
//! ```
//!
//! The custody accounting is `remaining = amount - released`: every record
//! keeps `0 <= released <= amount`, a funded or disputed escrow still holds
//! a positive remainder, and a terminal escrow has paid everything out.
use vstd::prelude::*;
use crate::errors::ForgeError;
use crate::types::Address;
use crate::effects::{fails_with, lemma_net_inflow_one, net_inflow, one_address, one_call, transfer_call, Holder, HostCall, Outcome};

verus! {

/// Lifecycle state of an escrow.
#[derive(Clone, Copy, Debug, PartialEq, Eq, Structural)]
pub enum EscrowStatus {
    /// Created but not funded.
    Pending,
    /// Tokens held by the contract.
    Funded,
    /// Released to the seller (full release or final partial release).
    Completed,
    /// Refunded to the buyer.
    Refunded,
    /// A party raised a dispute; frozen until the arbiter resolves.
    Disputed,
    /// Cancelled before funding.
    Cancelled,
}

/// A single three-party escrow record.
#[derive(Clone, Copy, Debug, PartialEq, Eq, Structural)]
pub struct EscrowData {
    /// Stable id, never reused.
    pub escrow_id: u64,
    /// Party funding the escrow and the default refund recipient.
    pub buyer: Address,
    /// Party paid on release.
    pub seller: Address,
    /// Neutral party deciding disputes.
    pub arbiter: Address,
    /// SEP-41 token custodied by this escrow.
    pub token: Address,
    /// Total amount deposited by the buyer.
    pub amount: i128,
    /// Cumulative amount already transferred out of custody.
    pub released: i128,
    /// Seconds after `created_at` at which the buyer may self-refund.
    pub timeout: u64,
    /// Current lifecycle state.
    pub status: EscrowStatus,
    /// Unix timestamp of creation.
    pub created_at: u64,
}

impl EscrowData {
    /// The custody invariant of one record.
    pub open spec fn wf(self) -> bool {
        &&& self.amount > 0
        &&& self.timeout > 0
        &&& 0 <= self.released <= self.amount
        &&& (self.status == EscrowStatus::Pending || self.status == EscrowStatus::Cancelled)
            ==> self.released == 0
        &&& (self.status == EscrowStatus::Completed || self.status == EscrowStatus::Refunded)
            ==> self.released == self.amount
        &&& (self.status == EscrowStatus::Funded || self.status == EscrowStatus::Disputed)
            ==> self.released < self.amount
    }

    /// The balance currently held in custody: `amount - released`.
    pub fn remaining(&self) -> (r: i128)
        requires
            i128::MIN <= self.amount - self.released <= i128::MAX,
        ensures
            r == self.amount - self.released,
    {
        self.amount - self.released
    }

    /// Tokens of this escrow held in custody: the remainder while funded or
    /// disputed, nothing otherwise.
    pub open spec fn custody(self) -> int {
        if self.status == EscrowStatus::Funded || self.status == EscrowStatus::Disputed {
            self.amount - self.released
        } else {
            0
        }
    }

    /// Whether `p` is the buyer, the seller or the arbiter.
    pub open spec fn involves(self, p: Address) -> bool {
        self.buyer == p || self.seller == p || self.arbiter == p
    }
}

/// The record shape written before partial releases existed: it carries
/// no `released` field.
#[derive(Clone, Copy, Debug, PartialEq, Eq, Structural)]
pub struct EscrowDataV1 {
    pub escrow_id: u64,
    pub buyer: Address,
    pub seller: Address,
    pub arbiter: Address,
    pub token: Address,
    pub amount: i128,
    pub timeout: u64,
    pub status: EscrowStatus,
    pub created_at: u64,
}

impl EscrowDataV1 {
    /// Read an old record as a current one: nothing has been released.
    pub fn upgrade(self) -> (e: EscrowData)
        ensures
            e == (EscrowData {
                escrow_id: self.escrow_id,
                buyer: self.buyer,
                seller: self.seller,
                arbiter: self.arbiter,
                token: self.token,
                amount: self.amount,
                released: 0,
                timeout: self.timeout,
                status: self.status,
                created_at: self.created_at,
            }),
    {
        EscrowData {
            escrow_id: self.escrow_id,
            buyer: self.buyer,
            seller: self.seller,
            arbiter: self.arbiter,
            token: self.token,
            amount: self.amount,
            released: 0,
            timeout: self.timeout,
            status: self.status,
            created_at: self.created_at,
        }
    }
}

/// A page of escrow ids involving a participant.
#[derive(Clone, Debug)]
pub struct ParticipantEscrowsPage {
    /// Escrow ids on this page, in creation order.
    pub ids: Vec<u64>,
    /// Total escrows involving the participant across all pages.
    pub total: u32,
    /// Offset for the next page, or `None` when `ids` ends the list.
    pub next_cursor: Option<u32>,
}

/// Whether `s` is a terminal status: paid out in full or cancelled.
pub open spec fn is_settled(s: EscrowStatus) -> bool {
    s == EscrowStatus::Completed || s == EscrowStatus::Refunded || s == EscrowStatus::Cancelled
}

/// What every operation keeps: no record disappears, and a settled record
/// never changes again.
pub open spec fn settled_unchanged(before: Seq<EscrowData>, after: Seq<EscrowData>) -> bool {
    &&& before.len() <= after.len()
    &&& forall|i: int|
        0 <= i < before.len() && is_settled(#[trigger] before[i].status) ==> after[i] == before[i]
}

/// The record with id `id`, if any: ids are `1..=len` in creation order.
pub open spec fn escrow_at(s: Seq<EscrowData>, id: u64) -> Option<EscrowData> {
    if 1 <= id <= s.len() {
        Some(s[id - 1])
    } else {
        None
    }
}

/// Well-formedness of the whole escrow table.
pub open spec fn escrows_wf(s: Seq<EscrowData>) -> bool {
    forall|i: int| 0 <= i < s.len() ==> (#[trigger] s[i]).escrow_id == i + 1 && s[i].wf()
}

/// The ids of the escrows `p` takes part in, in creation order.
pub open spec fn participant_ids(s: Seq<EscrowData>, p: Address) -> Seq<u64>
    decreases s.len(),
{
    if s.len() == 0 {
        Seq::empty()
    } else {
        let prev = participant_ids(s.drop_last(), p);
        if s.last().involves(p) {
            prev.push(s.last().escrow_id)
        } else {
            prev
        }
    }
}

/// The first index of a page and the index just past it, for a list of
/// `total` ids.
pub open spec fn page_bounds(total: int, cursor: int, limit: int) -> (int, int) {
    if limit == 0 {
        (total, total)
    } else {
        (
            if cursor < total { cursor } else { total },
            if cursor + limit < total { cursor + limit } else { total },
        )
    }
}

/// The page of `ids` that starts at `cursor` and holds at most `limit` ids.
pub fn paginate(ids: &Vec<u64>, cursor: u32, limit: u32) -> (page: ParticipantEscrowsPage)
    requires
        ids@.len() <= u32::MAX,
    ensures
        ({
            let (at, end) = page_bounds(ids@.len() as int, cursor as int, limit as int);
            &&& page.ids@ == ids@.subrange(at, end)
            &&& page.total == ids@.len()
            &&& page.next_cursor == if end < ids@.len() { Some(end as u32) } else { None }
        }),
{
    let total = ids.len() as u32;
    let (mut at, end) = if limit == 0 {
        (total, total)
    } else {
        let at0 = if cursor < total { cursor } else { total };
        let sum: u64 = cursor as u64 + limit as u64;
        let end0 = if sum < total as u64 { sum as u32 } else { total };
        (at0, end0)
    };
    let start = at;
    let mut out: Vec<u64> = Vec::new();
    while at < end
        invariant
            start <= at <= end <= total,
            total == ids@.len(),
            out@ == ids@.subrange(start as int, at as int),
        decreases end - at,
    {
        out.push(ids[at as usize]);
        at += 1;
    }
    let next_cursor = if end < total { Some(end) } else { None };
    ParticipantEscrowsPage { ids: out, total, next_cursor }
}

/// The state of the escrow contract: every escrow ever created, in
/// creation order.
pub struct Escrow {
    escrows: Vec<EscrowData>,
}

impl View for Escrow {
    type V = Seq<EscrowData>;

    closed spec fn view(&self) -> Seq<EscrowData> {
        self.escrows@
    }
}

impl Escrow {
    /// The contract invariant.
    pub open spec fn wf(&self) -> bool {
        escrows_wf(self@)
    }

    /// An escrow contract with no escrows.
    pub fn new() -> (e: Self)
        ensures
            e.wf(),
            e@ == Seq::<EscrowData>::empty(),
    {
        Escrow { escrows: Vec::new() }
    }

    /// Rebuild the contract from its stored records, refusing records that
    /// break the invariant.
    pub fn from_records(records: Vec<EscrowData>) -> (r: Option<Self>)
        ensures
            r matches Some(e) ==> e.wf() && e@ == records@,
            r is None <==> !escrows_wf(records@),
    {
        let mut i: usize = 0;
        while i < records.len()
            invariant
                i <= records.len(),
                forall|j: int| 0 <= j < i ==> (#[trigger] records@[j]).escrow_id == j + 1 && records@[j].wf(),
            decreases records.len() - i,
        {
            let e = records[i];
            let ok = e.escrow_id as u128 == i as u128 + 1 && e.amount > 0 && e.timeout > 0
                && 0 <= e.released && e.released <= e.amount
                && ((e.status != EscrowStatus::Pending && e.status != EscrowStatus::Cancelled)
                    || e.released == 0)
                && ((e.status != EscrowStatus::Completed && e.status != EscrowStatus::Refunded)
                    || e.released == e.amount)
                && ((e.status != EscrowStatus::Funded && e.status != EscrowStatus::Disputed)
                    || e.released < e.amount);
            if !ok {
                return None;
            }
            i += 1;
        }
        Some(Escrow { escrows: records })
    }

    /// The stored records, in creation order.
    pub fn records(&self) -> (r: &Vec<EscrowData>)
        ensures
            r@ == self@,
    {
        &self.escrows
    }

    /// Number of escrows created so far.
    pub fn count(&self) -> (n: u64)
        ensures
            n == self@.len(),
    {
        self.escrows.len() as u64
    }

    fn index_of(&self, escrow_id: u64) -> (r: Option<usize>)
        ensures
            escrow_at(self@, escrow_id) is None <==> r is None,
            r matches Some(i) ==> i as int == escrow_id - 1 && i < self@.len(),
    {
        if escrow_id == 0 || escrow_id as u128 > self.escrows.len() as u128 {
            None
        } else {
            Some((escrow_id - 1) as usize)
        }
    }

    /// Create a new escrow and return its stable id. Only the buyer
    /// authorizes creation.
    pub fn create_escrow(
        &mut self,
        buyer: Address,
        seller: Address,
        arbiter: Address,
        token: Address,
        amount: i128,
        timeout: u64,
        now: u64,
    ) -> (r: Outcome<u64>)
        requires
            old(self).wf(),
        ensures
            final(self).wf(),
            settled_unchanged(old(self)@, final(self)@),
            amount <= 0 || timeout == 0 ==> fails_with(r, ForgeError::InvalidInput, seq![])
                && final(self)@ == old(self)@,
            amount > 0 && timeout > 0 && old(self)@.len() == u64::MAX ==> fails_with(
                r,
                ForgeError::ArithmeticOverflow,
                seq![buyer],
            ) && final(self)@ == old(self)@,
            amount > 0 && timeout > 0 && old(self)@.len() < u64::MAX ==> {
                &&& r.result == Ok::<u64, ForgeError>((old(self)@.len() + 1) as u64)
                &&& r.auths@ == seq![buyer]
                &&& r.calls@ == Seq::<HostCall>::empty()
                &&& final(self)@ == old(self)@.push(
                    EscrowData {
                        escrow_id: (old(self)@.len() + 1) as u64,
                        buyer,
                        seller,
                        arbiter,
                        token,
                        amount,
                        released: 0,
                        timeout,
                        status: EscrowStatus::Pending,
                        created_at: now,
                    },
                )
            },
    {
        if amount <= 0 || timeout == 0 {
            return Outcome::fail(ForgeError::InvalidInput, Vec::new());
        }
        let count = self.escrows.len() as u64;
        if count == u64::MAX {
            return Outcome::fail(ForgeError::ArithmeticOverflow, one_address(buyer));
        }
        let id = count + 1;
        let escrow = EscrowData {
            escrow_id: id,
            buyer,
            seller,
            arbiter,
            token,
            amount,
            released: 0,
            timeout,
            status: EscrowStatus::Pending,
            created_at: now,
        };
        self.escrows.push(escrow);
        proof {
            assert(forall|i: int| 0 <= i < old(self)@.len() ==> self@[i] == old(self)@[i]);
        }
        Outcome::ok(id, one_address(buyer), Vec::new())
    }

    /// Fund the escrow: the buyer's `amount` moves into custody. Only valid
    /// while `Pending`.
    pub fn deposit(&mut self, escrow_id: u64) -> (r: Outcome<()>)
        requires
            old(self).wf(),
        ensures
            final(self).wf(),
            settled_unchanged(old(self)@, final(self)@),
            escrow_at(old(self)@, escrow_id) matches Some(e) ==> (r.result is Ok ==> net_inflow(
                r.calls@,
                e.token,
            ) == final(self)@[escrow_id - 1].custody() - e.custody()),
            match escrow_at(old(self)@, escrow_id) {
                None => fails_with(r, ForgeError::NotFound, seq![]) && final(self)@ == old(self)@,
                Some(e) => if e.status != EscrowStatus::Pending {
                    fails_with(r, ForgeError::InvalidInput, seq![e.buyer])
                        && final(self)@ == old(self)@
                } else {
                    &&& r.result == Ok::<(), ForgeError>(())
                    &&& r.auths@ == seq![e.buyer]
                    &&& r.calls@ == seq![
                        transfer_call(e.token, Holder::At(e.buyer), Holder::This, e.amount),
                    ]
                    &&& final(self)@ == old(self)@.update(
                        escrow_id - 1,
                        EscrowData { status: EscrowStatus::Funded, ..e },
                    )
                },
            },
    {
        let idx = match self.index_of(escrow_id) {
            None => return Outcome::fail(ForgeError::NotFound, Vec::new()),
            Some(i) => i,
        };
        let e = self.escrows[idx];
        if e.status != EscrowStatus::Pending {
            return Outcome::fail(ForgeError::InvalidInput, one_address(e.buyer));
        }
        let call = HostCall::Transfer {
            token: e.token,
            from: Holder::At(e.buyer),
            to: Holder::This,
            amount: e.amount,
        };
        self.escrows.set(idx, EscrowData { status: EscrowStatus::Funded, ..e });
        proof {
            lemma_net_inflow_one(call, e.token);
        }
        Outcome::ok((), one_address(e.buyer), one_call(call))
    }

    /// Release the whole remaining balance to the seller. Seller-authorized;
    /// only valid while `Funded`.
    pub fn release(&mut self, escrow_id: u64) -> (r: Outcome<()>)
        requires
            old(self).wf(),
        ensures
            final(self).wf(),
            settled_unchanged(old(self)@, final(self)@),
            escrow_at(old(self)@, escrow_id) matches Some(e) ==> (r.result is Ok ==> net_inflow(
                r.calls@,
                e.token,
            ) == final(self)@[escrow_id - 1].custody() - e.custody()),
            match escrow_at(old(self)@, escrow_id) {
                None => fails_with(r, ForgeError::NotFound, seq![]) && final(self)@ == old(self)@,
                Some(e) => if e.status != EscrowStatus::Funded {
                    fails_with(r, ForgeError::InvalidInput, seq![e.seller])
                        && final(self)@ == old(self)@
                } else {
                    &&& r.result == Ok::<(), ForgeError>(())
                    &&& r.auths@ == seq![e.seller]
                    &&& r.calls@ == seq![
                        transfer_call(
                            e.token,
                            Holder::This,
                            Holder::At(e.seller),
                            (e.amount - e.released) as i128,
                        ),
                    ]
                    &&& final(self)@ == old(self)@.update(
                        escrow_id - 1,
                        EscrowData { released: e.amount, status: EscrowStatus::Completed, ..e },
                    )
                },
            },
    {
        let idx = match self.index_of(escrow_id) {
            None => return Outcome::fail(ForgeError::NotFound, Vec::new()),
            Some(i) => i,
        };
        let e = self.escrows[idx];
        if e.status != EscrowStatus::Funded {
            return Outcome::fail(ForgeError::InvalidInput, one_address(e.seller));
        }
        assert(e.wf());
        let remaining = e.remaining();
        let call = HostCall::Transfer {
            token: e.token,
            from: Holder::This,
            to: Holder::At(e.seller),
            amount: remaining,
        };
        self.escrows.set(
            idx,
            EscrowData { released: e.amount, status: EscrowStatus::Completed, ..e },
        );
        proof {
            lemma_net_inflow_one(call, e.token);
        }
        Outcome::ok((), one_address(e.seller), one_call(call))
    }

    /// Release `amount` of the remaining balance to the seller. The escrow
    /// stays `Funded` unless `amount` is the whole remainder, in which case
    /// it completes.
    pub fn release_partial(&mut self, escrow_id: u64, amount: i128) -> (r: Outcome<()>)
        requires
            old(self).wf(),
        ensures
            final(self).wf(),
            settled_unchanged(old(self)@, final(self)@),
            escrow_at(old(self)@, escrow_id) matches Some(e) ==> (r.result is Ok ==> net_inflow(
                r.calls@,
                e.token,
            ) == final(self)@[escrow_id - 1].custody() - e.custody()),
            match escrow_at(old(self)@, escrow_id) {
                None => fails_with(r, ForgeError::NotFound, seq![]) && final(self)@ == old(self)@,
                Some(e) => if e.status != EscrowStatus::Funded || amount <= 0 || amount > e.amount
                    - e.released {
                    fails_with(r, ForgeError::InvalidInput, seq![e.seller])
                        && final(self)@ == old(self)@
                } else {
                    &&& r.result == Ok::<(), ForgeError>(())
                    &&& r.auths@ == seq![e.seller]
                    &&& r.calls@ == seq![
                        transfer_call(e.token, Holder::This, Holder::At(e.seller), amount),
                    ]
                    &&& final(self)@ == old(self)@.update(
                        escrow_id - 1,
                        EscrowData {
                            released: (e.released + amount) as i128,
                            status: if amount == e.amount - e.released {
                                EscrowStatus::Completed
                            } else {
                                EscrowStatus::Funded
                            },
                            ..e
                        },
                    )
                },
            },
    {
        let idx = match self.index_of(escrow_id) {
            None => return Outcome::fail(ForgeError::NotFound, Vec::new()),
            Some(i) => i,
        };
        let e = self.escrows[idx];
        if e.status != EscrowStatus::Funded || amount <= 0 {
            return Outcome::fail(ForgeError::InvalidInput, one_address(e.seller));
        }
        assert(e.wf());
        let remaining = e.remaining();
        if amount > remaining {
            return Outcome::fail(ForgeError::InvalidInput, one_address(e.seller));
        }
        let call = HostCall::Transfer {
            token: e.token,
            from: Holder::This,
            to: Holder::At(e.seller),
            amount,
        };
        let status = if amount == remaining {
            EscrowStatus::Completed
        } else {
            EscrowStatus::Funded
        };
        self.escrows.set(idx, EscrowData { released: e.released + amount, status, ..e });
        proof {
            lemma_net_inflow_one(call, e.token);
        }
        Outcome::ok((), one_address(e.seller), one_call(call))
    }

    /// Refund the remaining balance to the buyer. Before the deadline
    /// (`created_at + timeout`) the seller authorizes; from the deadline on
    /// the buyer does. Only valid while `Funded`.
    pub fn refund(&mut self, escrow_id: u64, now: u64) -> (r: Outcome<()>)
        requires
            old(self).wf(),
        ensures
            final(self).wf(),
            settled_unchanged(old(self)@, final(self)@),
            escrow_at(old(self)@, escrow_id) matches Some(e) ==> (r.result is Ok ==> net_inflow(
                r.calls@,
                e.token,
            ) == final(self)@[escrow_id - 1].custody() - e.custody()),
            match escrow_at(old(self)@, escrow_id) {
                None => fails_with(r, ForgeError::NotFound, seq![]) && final(self)@ == old(self)@,
                Some(e) => if e.status != EscrowStatus::Funded {
                    fails_with(r, ForgeError::InvalidInput, seq![]) && final(self)@ == old(self)@
                } else if e.created_at + e.timeout > u64::MAX {
                    fails_with(r, ForgeError::ArithmeticOverflow, seq![])
                        && final(self)@ == old(self)@
                } else {
                    &&& r.result == Ok::<(), ForgeError>(())
                    &&& r.auths@ == if now >= e.created_at + e.timeout {
                        seq![e.buyer]
                    } else {
                        seq![e.seller]
                    }
                    &&& r.calls@ == seq![
                        transfer_call(
                            e.token,
                            Holder::This,
                            Holder::At(e.buyer),
                            (e.amount - e.released) as i128,
                        ),
                    ]
                    &&& final(self)@ == old(self)@.update(
                        escrow_id - 1,
                        EscrowData { released: e.amount, status: EscrowStatus::Refunded, ..e },
                    )
                },
            },
    {
        let idx = match self.index_of(escrow_id) {
            None => return Outcome::fail(ForgeError::NotFound, Vec::new()),
            Some(i) => i,
        };
        let e = self.escrows[idx];
        if e.status != EscrowStatus::Funded {
            return Outcome::fail(ForgeError::InvalidInput, Vec::new());
        }
        let deadline = match e.created_at.checked_add(e.timeout) {
            None => return Outcome::fail(ForgeError::ArithmeticOverflow, Vec::new()),
            Some(d) => d,
        };
        let authorizer = if now >= deadline {
            e.buyer
        } else {
            e.seller
        };
        assert(e.wf());
        let remaining = e.remaining();
        let call = HostCall::Transfer {
            token: e.token,
            from: Holder::This,
            to: Holder::At(e.buyer),
            amount: remaining,
        };
        self.escrows.set(
            idx,
            EscrowData { released: e.amount, status: EscrowStatus::Refunded, ..e },
        );
        proof {
            lemma_net_inflow_one(call, e.token);
        }
        Outcome::ok((), one_address(authorizer), one_call(call))
    }

    /// Raise a dispute. `claimant` must be the buyer or the seller and
    /// authorizes the call; only valid while `Funded`.
    pub fn dispute(&mut self, escrow_id: u64, claimant: Address) -> (r: Outcome<()>)
        requires
            old(self).wf(),
        ensures
            final(self).wf(),
            settled_unchanged(old(self)@, final(self)@),
            escrow_at(old(self)@, escrow_id) matches Some(e) ==> (r.result is Ok ==> net_inflow(
                r.calls@,
                e.token,
            ) == final(self)@[escrow_id - 1].custody() - e.custody()),
            match escrow_at(old(self)@, escrow_id) {
                None => fails_with(r, ForgeError::NotFound, seq![]) && final(self)@ == old(self)@,
                Some(e) => if e.status != EscrowStatus::Funded || (claimant != e.buyer && claimant
                    != e.seller) {
                    fails_with(r, ForgeError::InvalidInput, seq![]) && final(self)@ == old(self)@
                } else {
                    &&& r.result == Ok::<(), ForgeError>(())
                    &&& r.auths@ == seq![claimant]
                    &&& r.calls@ == Seq::<HostCall>::empty()
                    &&& final(self)@ == old(self)@.update(
                        escrow_id - 1,
                        EscrowData { status: EscrowStatus::Disputed, ..e },
                    )
                },
            },
    {
        let idx = match self.index_of(escrow_id) {
            None => return Outcome::fail(ForgeError::NotFound, Vec::new()),
            Some(i) => i,
        };
        let e = self.escrows[idx];
        if e.status != EscrowStatus::Funded {
            return Outcome::fail(ForgeError::InvalidInput, Vec::new());
        }
        if claimant != e.buyer && claimant != e.seller {
            return Outcome::fail(ForgeError::InvalidInput, Vec::new());
        }
        self.escrows.set(idx, EscrowData { status: EscrowStatus::Disputed, ..e });
        Outcome::ok((), one_address(claimant), Vec::new())
    }

    /// Resolve a dispute: the arbiter pays the remaining balance to the
    /// seller (`true`) or back to the buyer (`false`). Final.
    pub fn resolve(&mut self, escrow_id: u64, in_favor_of_seller: bool) -> (r: Outcome<()>)
        requires
            old(self).wf(),
        ensures
            final(self).wf(),
            settled_unchanged(old(self)@, final(self)@),
            escrow_at(old(self)@, escrow_id) matches Some(e) ==> (r.result is Ok ==> net_inflow(
                r.calls@,
                e.token,
            ) == final(self)@[escrow_id - 1].custody() - e.custody()),
            match escrow_at(old(self)@, escrow_id) {
                None => fails_with(r, ForgeError::NotFound, seq![]) && final(self)@ == old(self)@,
                Some(e) => if e.status != EscrowStatus::Disputed {
                    fails_with(r, ForgeError::InvalidInput, seq![]) && final(self)@ == old(self)@
                } else {
                    &&& r.result == Ok::<(), ForgeError>(())
                    &&& r.auths@ == seq![e.arbiter]
                    &&& r.calls@ == seq![
                        transfer_call(
                            e.token,
                            Holder::This,
                            Holder::At(if in_favor_of_seller { e.seller } else { e.buyer }),
                            (e.amount - e.released) as i128,
                        ),
                    ]
                    &&& final(self)@ == old(self)@.update(
                        escrow_id - 1,
                        EscrowData {
                            released: e.amount,
                            status: if in_favor_of_seller {
                                EscrowStatus::Completed
                            } else {
                                EscrowStatus::Refunded
                            },
                            ..e
                        },
                    )
                },
            },
    {
        let idx = match self.index_of(escrow_id) {
            None => return Outcome::fail(ForgeError::NotFound, Vec::new()),
            Some(i) => i,
        };
        let e = self.escrows[idx];
        if e.status != EscrowStatus::Disputed {
            return Outcome::fail(ForgeError::InvalidInput, Vec::new());
        }
        assert(e.wf());
        let remaining = e.remaining();
        let (to, status) = if in_favor_of_seller {
            (e.seller, EscrowStatus::Completed)
        } else {
            (e.buyer, EscrowStatus::Refunded)
        };
        let call = HostCall::Transfer {
            token: e.token,
            from: Holder::This,
            to: Holder::At(to),
            amount: remaining,
        };
        self.escrows.set(idx, EscrowData { released: e.amount, status, ..e });
        proof {
            lemma_net_inflow_one(call, e.token);
        }
        Outcome::ok((), one_address(e.arbiter), one_call(call))
    }

    /// Cancel a `Pending` escrow. Requires the buyer; nothing moves.
    pub fn cancel(&mut self, escrow_id: u64) -> (r: Outcome<()>)
        requires
            old(self).wf(),
        ensures
            final(self).wf(),
            settled_unchanged(old(self)@, final(self)@),
            escrow_at(old(self)@, escrow_id) matches Some(e) ==> (r.result is Ok ==> net_inflow(
                r.calls@,
                e.token,
            ) == final(self)@[escrow_id - 1].custody() - e.custody()),
            match escrow_at(old(self)@, escrow_id) {
                None => fails_with(r, ForgeError::NotFound, seq![]) && final(self)@ == old(self)@,
                Some(e) => if e.status != EscrowStatus::Pending {
                    fails_with(r, ForgeError::InvalidInput, seq![]) && final(self)@ == old(self)@
                } else {
                    &&& r.result == Ok::<(), ForgeError>(())
                    &&& r.auths@ == seq![e.buyer]
                    &&& r.calls@ == Seq::<HostCall>::empty()
                    &&& final(self)@ == old(self)@.update(
                        escrow_id - 1,
                        EscrowData { status: EscrowStatus::Cancelled, ..e },
                    )
                },
            },
    {
        let idx = match self.index_of(escrow_id) {
            None => return Outcome::fail(ForgeError::NotFound, Vec::new()),
            Some(i) => i,
        };
        let e = self.escrows[idx];
        if e.status != EscrowStatus::Pending {
            return Outcome::fail(ForgeError::InvalidInput, Vec::new());
        }
        self.escrows.set(idx, EscrowData { status: EscrowStatus::Cancelled, ..e });
        Outcome::ok((), one_address(e.buyer), Vec::new())
    }

    /// Read the current lifecycle status.
    pub fn get_status(&self, escrow_id: u64) -> (r: Result<EscrowStatus, ForgeError>)
        ensures
            r == match escrow_at(self@, escrow_id) {
                Some(e) => Ok::<EscrowStatus, ForgeError>(e.status),
                None => Err(ForgeError::NotFound),
            },
    {
        match self.index_of(escrow_id) {
            None => Err(ForgeError::NotFound),
            Some(i) => Ok(self.escrows[i].status),
        }
    }

    /// Read the full escrow record.
    pub fn get_escrow(&self, escrow_id: u64) -> (r: Result<EscrowData, ForgeError>)
        ensures
            r == match escrow_at(self@, escrow_id) {
                Some(e) => Ok::<EscrowData, ForgeError>(e),
                None => Err(ForgeError::NotFound),
            },
    {
        match self.index_of(escrow_id) {
            None => Err(ForgeError::NotFound),
            Some(i) => Ok(self.escrows[i]),
        }
    }

    /// Keeper entry point: succeeds exactly when the escrow exists.
    pub fn touch_ttl(&self, escrow_id: u64) -> (r: Result<(), ForgeError>)
        ensures
            r == match escrow_at(self@, escrow_id) {
                Some(_) => Ok::<(), ForgeError>(()),
                None => Err(ForgeError::NotFound),
            },
    {
        match self.index_of(escrow_id) {
            None => Err(ForgeError::NotFound),
            Some(_) => Ok(()),
        }
    }

    /// The ids of the escrows `participant` takes part in (as buyer, seller
    /// or arbiter), in creation order.
    pub fn participant_escrow_ids(&self, participant: Address) -> (ids: Vec<u64>)
        ensures
            ids@ == participant_ids(self@, participant),
    {
        let mut ids: Vec<u64> = Vec::new();
        let mut i: usize = 0;
        while i < self.escrows.len()
            invariant
                i <= self@.len(),
                ids@ == participant_ids(self@.subrange(0, i as int), participant),
            decreases self@.len() - i,
        {
            let e = self.escrows[i];
            proof {
                let s = self@.subrange(0, i + 1);
                assert(s.drop_last() =~= self@.subrange(0, i as int));
            }
            if e.buyer == participant || e.seller == participant || e.arbiter == participant {
                ids.push(e.escrow_id);
            }
            i += 1;
        }
        proof {
            assert(self@.subrange(0, self@.len() as int) =~= self@);
        }
        ids
    }

    /// One page of the escrow ids `participant` takes part in. A `limit` of
    /// zero yields an empty page with no next cursor; a cursor past the end
    /// yields an empty page.
    pub fn escrows_for_participant(
        &self,
        participant: Address,
        cursor: u32,
        limit: u32,
    ) -> (page: ParticipantEscrowsPage)
        requires
            participant_ids(self@, participant).len() <= u32::MAX,
        ensures
            ({
                let ids = participant_ids(self@, participant);
                let (at, end) = page_bounds(ids.len() as int, cursor as int, limit as int);
                &&& page.ids@ == ids.subrange(at, end)
                &&& page.total == ids.len()
                &&& page.next_cursor == if end < ids.len() { Some(end as u32) } else { None }
            }),
    {
        let ids = self.participant_escrow_ids(participant);
        paginate(&ids, cursor, limit)
    }
}


/// The ids a client collects by walking the pages of `ids` from `cursor`,
/// following each page's next cursor with the same `limit`.
pub open spec fn pages_from(ids: Seq<u64>, cursor: int, limit: int) -> Seq<u64>
    decreases ids.len() - cursor,
{
    if limit <= 0 || cursor < 0 || cursor >= ids.len() {
        Seq::empty()
    } else {
        let (at, end) = page_bounds(ids.len() as int, cursor, limit);
        ids.subrange(at, end) + pages_from(ids, end, limit)
    }
}

/// Walking the pages with any positive limit, from any cursor up to the
/// end, yields every remaining id exactly once, in order.
pub proof fn lemma_pages_cover_all(ids: Seq<u64>, cursor: int, limit: int)
    requires
        0 <= cursor <= ids.len(),
        limit > 0,
    ensures
        pages_from(ids, cursor, limit) == ids.subrange(cursor, ids.len() as int),
    decreases ids.len() - cursor,
{
    if cursor < ids.len() {
        let (at, end) = page_bounds(ids.len() as int, cursor, limit);
        lemma_pages_cover_all(ids, end, limit);
        assert(ids.subrange(at, end) + ids.subrange(end, ids.len() as int) =~= ids.subrange(
            cursor,
            ids.len() as int,
        ));
    } else {
        assert(ids.subrange(cursor, ids.len() as int) =~= Seq::<u64>::empty());
    }
}

/// A participant's index lists exactly the escrows the participant takes
/// part in, each once, in creation order: its ids strictly increase.
pub proof fn lemma_participant_ids_exact(s: Seq<EscrowData>, p: Address)
    requires
        escrows_wf(s),
    ensures
        forall|i: int, j: int|
            0 <= i < j < participant_ids(s, p).len() ==> participant_ids(s, p)[i]
                < participant_ids(s, p)[j],
        forall|i: int|
            0 <= i < participant_ids(s, p).len() ==> 1 <= #[trigger] participant_ids(s, p)[i]
                <= s.len(),
        forall|id: u64|
            participant_ids(s, p).contains(id) <==> (escrow_at(s, id) matches Some(e)
                && e.involves(p)),
    decreases s.len(),
{
    if s.len() > 0 {
        let d = s.drop_last();
        assert(forall|i: int| 0 <= i < d.len() ==> d[i] == s[i]);
        lemma_participant_ids_exact(d, p);
        let prev = participant_ids(d, p);
        let last = s.last();
        assert(last.escrow_id == s.len());
        assert forall|id: u64|
            participant_ids(s, p).contains(id) <==> (escrow_at(s, id) matches Some(e)
                && e.involves(p)) by {
            if id < s.len() {
                assert(escrow_at(s, id) == escrow_at(d, id));
            }
            if last.involves(p) {
                assert(participant_ids(s, p) == prev.push(last.escrow_id));
                if participant_ids(s, p).contains(id) {
                    let k = choose|k: int| 0 <= k < participant_ids(s, p).len()
                        && participant_ids(s, p)[k] == id;
                    if k < prev.len() {
                        assert(prev.contains(id));
                    }
                }
                if prev.contains(id) {
                    let k = choose|k: int| 0 <= k < prev.len() && prev[k] == id;
                    assert(participant_ids(s, p)[k] == id);
                }
                if id == s.len() {
                    assert(participant_ids(s, p)[prev.len() as int] == id);
                }
            }
        }
    }
}

} // verus!
