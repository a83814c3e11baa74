//! Recurring subscription billing.
//!
//! ```text
//! subscribe -> Active <-> Paused
//!                 \         /
//!                  v       v
//!                   cancel -> Cancelled (no further charges)
//! Active --(period elapses, charge succeeds)--> bills amount, advances
//! Active --(period elapses, charge fails)-----> PastDue (arrears retry)
//! PastDue --(MAX_RETRIES failures)------------> Cancelled
//! ```
use vstd::prelude::*;
use vstd::arithmetic::div_mod::lemma_fundamental_div_mod;
use vstd::arithmetic::mul::{lemma_mul_inequality, lemma_mul_is_distributive_add};
use crate::errors::ForgeError;
use crate::types::Address;
use crate::effects::{fails_with, one_address, one_call, transfer_call, Holder, HostCall, Outcome};

verus! {

/// Consecutive failed charges after which a subscription is cancelled.
pub const MAX_RETRIES: u32 = 3;

/// Upper bound on the periods one catch-up call may bill.
pub const MAX_CATCHUP_PERIODS: u32 = 32;

/// Lifecycle state of a subscription.
#[derive(Clone, Copy, Debug, PartialEq, Eq, Structural)]
pub enum SubscriptionStatus {
    /// Active and chargeable.
    Active,
    /// Cancelled; no further charges.
    Cancelled,
    /// A payment failed; the subscription is in arrears.
    PastDue,
    /// Temporarily paused; no charges until resumed.
    Paused,
}

/// A recurring payment agreement.
#[derive(Clone, Copy, Debug, PartialEq, Eq, Structural)]
pub struct Subscription {
    pub subscription_id: u64,
    /// Account being charged.
    pub subscriber: Address,
    /// Account receiving payments.
    pub provider: Address,
    /// Token used for settlement.
    pub token: Address,
    /// Amount charged per period.
    pub amount: i128,
    /// Length of one billing period, in seconds.
    pub period: u64,
    /// End of the last period billed.
    pub last_charged: u64,
    pub status: SubscriptionStatus,
    /// When the subscription was paused, while paused.
    pub paused_at: Option<u64>,
    /// Consecutive failed billing attempts.
    pub failed_attempts: u32,
}

/// The record published for a successful charge.
#[derive(Clone, Copy, Debug, PartialEq, Eq, Structural)]
pub struct Charged {
    pub subscription_id: u64,
    pub amount: i128,
    pub last_charged: u64,
    /// When the next period falls due (saturating).
    pub next_charge_at: u64,
}

impl Charged {
    /// The charge record of `s` after a successful charge.
    pub fn of(s: &Subscription) -> (c: Charged)
        ensures
            c == (Charged {
                subscription_id: s.subscription_id,
                amount: s.amount,
                last_charged: s.last_charged,
                next_charge_at: if s.last_charged + s.period > u64::MAX {
                    u64::MAX
                } else {
                    (s.last_charged + s.period) as u64
                },
            }),
    {
        Charged {
            subscription_id: s.subscription_id,
            amount: s.amount,
            last_charged: s.last_charged,
            next_charge_at: s.last_charged.saturating_add(s.period),
        }
    }
}

/// What every operation keeps: no subscription disappears, billing never
/// moves back in time, and a cancelled subscription never changes again.
pub open spec fn never_rewinds(before: Seq<Subscription>, after: Seq<Subscription>) -> bool {
    &&& before.len() <= after.len()
    &&& forall|i: int|
        0 <= i < before.len() ==> (#[trigger] after[i]).last_charged >= before[i].last_charged
            && (before[i].status == SubscriptionStatus::Cancelled ==> after[i] == before[i])
}

/// The subscription with id `id`, if any.
pub open spec fn subscription_at(s: Seq<Subscription>, id: u64) -> Option<Subscription> {
    if 1 <= id <= s.len() {
        Some(s[id - 1])
    } else {
        None
    }
}

/// The subscription table invariant.
pub open spec fn subscriptions_wf(s: Seq<Subscription>) -> bool {
    forall|i: int|
        0 <= i < s.len() ==> (#[trigger] s[i]).subscription_id == i + 1 && s[i].amount > 0
            && s[i].period > 0
}

/// The subscriptions in which `a` is the subscriber (or, with
/// `as_provider`, the provider), in creation order.
pub open spec fn subscriptions_of(s: Seq<Subscription>, a: Address, as_provider: bool) -> Seq<
    Subscription,
>
    decreases s.len(),
{
    if s.len() == 0 {
        Seq::empty()
    } else {
        let prev = subscriptions_of(s.drop_last(), a, as_provider);
        let party = if as_provider {
            s.last().provider
        } else {
            s.last().subscriber
        };
        if party == a {
            prev.push(s.last())
        } else {
            prev
        }
    }
}

/// The party of `x` that a listing looks at: its provider, or with
/// `as_provider` false its subscriber.
pub open spec fn party_of(x: Subscription, as_provider: bool) -> Address {
    if as_provider {
        x.provider
    } else {
        x.subscriber
    }
}

/// The listing of `a`'s subscriptions keeps every subscription in which `a`
/// is the party, whatever its status (cancelled, paused or past due ones
/// included), in creation order, and nothing else: it is `s` filtered by
/// the party, so its length is the number of such subscriptions, each of
/// them occurs in it, and each of its entries is one of them.
pub proof fn lemma_listing_is_every_subscription_of_the_party(
    s: Seq<Subscription>,
    a: Address,
    as_provider: bool,
)
    ensures
        subscriptions_of(s, a, as_provider) == s.filter(
            |x: Subscription| party_of(x, as_provider) == a,
        ),
        forall|i: int|
            0 <= i < s.len() && party_of(#[trigger] s[i], as_provider) == a ==> subscriptions_of(
                s,
                a,
                as_provider,
            ).contains(s[i]),
        forall|j: int|
            0 <= j < subscriptions_of(s, a, as_provider).len() ==> s.contains(
                #[trigger] subscriptions_of(s, a, as_provider)[j],
            ) && party_of(subscriptions_of(s, a, as_provider)[j], as_provider) == a,
    decreases s.len(),
{
    let pred = |x: Subscription| party_of(x, as_provider) == a;
    reveal(Seq::filter);
    if s.len() > 0 {
        lemma_listing_is_every_subscription_of_the_party(s.drop_last(), a, as_provider);
    }
    let m = subscriptions_of(s, a, as_provider);
    assert(m == s.filter(pred));
    assert forall|i: int| 0 <= i < s.len() && party_of(#[trigger] s[i], as_provider) == a implies m.contains(s[i]) by {
        s.lemma_filter_contains(pred, i);
    }
    assert forall|j: int| 0 <= j < m.len() implies s.contains(#[trigger] m[j]) && party_of(m[j], as_provider) == a by {
        s.lemma_filter_pred(pred, j);
        broadcast use vstd::seq_lib::group_filter_ensures;

    }
}

/// `n` transfers of one period's amount from subscriber to provider.
pub open spec fn period_charges(sub: Subscription, n: nat) -> Seq<HostCall> {
    Seq::new(
        n,
        |i: int|
            transfer_call(sub.token, Holder::At(sub.subscriber), Holder::At(sub.provider), sub.amount),
    )
}

/// The state of the subscription contract: every subscription, in
/// creation order.
pub struct SubscriptionPayments {
    subs: Vec<Subscription>,
}

impl View for SubscriptionPayments {
    type V = Seq<Subscription>;

    closed spec fn view(&self) -> Seq<Subscription> {
        self.subs@
    }
}

impl SubscriptionPayments {
    /// The contract invariant.
    pub open spec fn wf(&self) -> bool {
        subscriptions_wf(self@)
    }

    /// A contract with no subscriptions.
    pub fn new() -> (p: Self)
        ensures
            p.wf(),
            p@ == Seq::<Subscription>::empty(),
    {
        SubscriptionPayments { subs: Vec::new() }
    }

    /// Rebuild the contract from stored subscriptions, refusing records that
    /// break the invariant.
    pub fn from_records(records: Vec<Subscription>) -> (r: Option<Self>)
        ensures
            r matches Some(p) ==> p.wf() && p@ == records@,
            r is None <==> !subscriptions_wf(records@),
    {
        let mut i: usize = 0;
        while i < records.len()
            invariant
                i <= records.len(),
                forall|j: int|
                    0 <= j < i ==> (#[trigger] records@[j]).subscription_id == j + 1
                        && records@[j].amount > 0 && records@[j].period > 0,
            decreases records.len() - i,
        {
            let s = records[i];
            if !(s.subscription_id as u128 == i as u128 + 1 && s.amount > 0 && s.period > 0) {
                return None;
            }
            i += 1;
        }
        Some(SubscriptionPayments { subs: records })
    }

    /// The stored subscriptions, in creation order.
    pub fn records(&self) -> (r: &Vec<Subscription>)
        ensures
            r@ == self@,
    {
        &self.subs
    }

    fn index_of(&self, id: u64) -> (r: Option<usize>)
        ensures
            subscription_at(self@, id) is None <==> r is None,
            r matches Some(i) ==> i as int == id - 1 && i < self@.len(),
    {
        if id == 0 || id as u128 > self.subs.len() as u128 {
            None
        } else {
            Some((id - 1) as usize)
        }
    }

    /// Subscribe `subscriber` to `provider` at `amount` of `token` per
    /// `period` seconds, billing from `now`. The subscriber authorizes.
    pub fn subscribe(
        &mut self,
        subscriber: Address,
        provider: Address,
        token: Address,
        amount: i128,
        period: u64,
        now: u64,
    ) -> (r: Outcome<u64>)
        requires
            old(self).wf(),
        ensures
            final(self).wf(),
            never_rewinds(old(self)@, final(self)@),
            if amount <= 0 || period == 0 {
                fails_with(r, ForgeError::InvalidInput, seq![]) && final(self)@ == old(self)@
            } else if old(self)@.len() == u64::MAX {
                fails_with(r, ForgeError::ArithmeticOverflow, seq![subscriber])
                    && final(self)@ == old(self)@
            } else {
                let id = (old(self)@.len() + 1) as u64;
                &&& r.result == Ok::<u64, ForgeError>(id)
                &&& r.auths@ == seq![subscriber]
                &&& r.calls@ == Seq::<HostCall>::empty()
                &&& final(self)@ == old(self)@.push(
                    Subscription {
                        subscription_id: id,
                        subscriber,
                        provider,
                        token,
                        amount,
                        period,
                        last_charged: now,
                        status: SubscriptionStatus::Active,
                        paused_at: None,
                        failed_attempts: 0,
                    },
                )
            },
    {
        if amount <= 0 || period == 0 {
            return Outcome::fail(ForgeError::InvalidInput, Vec::new());
        }
        let count = self.subs.len() as u64;
        if count == u64::MAX {
            return Outcome::fail(ForgeError::ArithmeticOverflow, one_address(subscriber));
        }
        let id = count + 1;
        self.subs.push(
            Subscription {
                subscription_id: id,
                subscriber,
                provider,
                token,
                amount,
                period,
                last_charged: now,
                status: SubscriptionStatus::Active,
                paused_at: None,
                failed_attempts: 0,
            },
        );
        proof {
            assert(forall|i: int| 0 <= i < old(self)@.len() ==> self@[i] == old(self)@[i]);
        }
        Outcome::ok(id, one_address(subscriber), Vec::new())
    }

    /// Bill one due period, assuming the transfer succeeds. Nothing is due
    /// (result `0`, no change) until a full period has passed since
    /// `last_charged`. The provider authorizes. When the transfer fails,
    /// the host keeps the old state and applies [`Self::charge_failed`].
    pub fn charge(&mut self, subscription_id: u64, now: u64) -> (r: Outcome<i128>)
        requires
            old(self).wf(),
        ensures
            final(self).wf(),
            never_rewinds(old(self)@, final(self)@),
            match subscription_at(old(self)@, subscription_id) {
                None => fails_with(r, ForgeError::NotFound, seq![]) && final(self)@ == old(self)@,
                Some(s) => if s.status == SubscriptionStatus::Cancelled || s.status
                    == SubscriptionStatus::Paused {
                    fails_with(r, ForgeError::InvalidInput, seq![]) && final(self)@ == old(self)@
                } else if s.last_charged + s.period > u64::MAX {
                    fails_with(r, ForgeError::ArithmeticOverflow, seq![s.provider])
                        && final(self)@ == old(self)@
                } else if now < s.last_charged + s.period {
                    &&& r.result == Ok::<i128, ForgeError>(0)
                    &&& r.auths@ == seq![s.provider]
                    &&& r.calls@ == Seq::<HostCall>::empty()
                    &&& final(self)@ == old(self)@
                } else {
                    &&& r.result == Ok::<i128, ForgeError>(s.amount)
                    &&& r.auths@ == seq![s.provider]
                    &&& r.calls@ == period_charges(s, 1)
                    &&& final(self)@ == old(self)@.update(
                        subscription_id - 1,
                        Subscription {
                            last_charged: (s.last_charged + s.period) as u64,
                            failed_attempts: 0,
                            status: SubscriptionStatus::Active,
                            paused_at: None,
                            ..s
                        },
                    )
                },
            },
    {
        let idx = match self.index_of(subscription_id) {
            None => return Outcome::fail(ForgeError::NotFound, Vec::new()),
            Some(i) => i,
        };
        let s = self.subs[idx];
        if s.status == SubscriptionStatus::Cancelled || s.status == SubscriptionStatus::Paused {
            return Outcome::fail(ForgeError::InvalidInput, Vec::new());
        }
        let next_due = match s.last_charged.checked_add(s.period) {
            None => return Outcome::fail(ForgeError::ArithmeticOverflow, one_address(s.provider)),
            Some(t) => t,
        };
        if now < next_due {
            return Outcome::ok(0, one_address(s.provider), Vec::new());
        }
        let call = HostCall::Transfer {
            token: s.token,
            from: Holder::At(s.subscriber),
            to: Holder::At(s.provider),
            amount: s.amount,
        };
        self.subs.set(
            idx,
            Subscription {
                last_charged: next_due,
                failed_attempts: 0,
                status: SubscriptionStatus::Active,
                paused_at: None,
                ..s
            },
        );
        let calls = one_call(call);
        proof {
            assert(calls@ =~= period_charges(s, 1));
        }
        Outcome::ok(s.amount, one_address(s.provider), calls)
    }

    /// The bookkeeping of a due charge whose transfer failed: one more
    /// failed attempt, `PastDue`, or `Cancelled` after [`MAX_RETRIES`]
    /// consecutive failures. Returns `0` billed. Checks the same
    /// preconditions as [`Self::charge`].
    pub fn charge_failed(&mut self, subscription_id: u64, now: u64) -> (r: Result<i128, ForgeError>)
        requires
            old(self).wf(),
        ensures
            final(self).wf(),
            never_rewinds(old(self)@, final(self)@),
            match subscription_at(old(self)@, subscription_id) {
                None => r == Err::<i128, ForgeError>(ForgeError::NotFound)
                    && final(self)@ == old(self)@,
                Some(s) => if s.status == SubscriptionStatus::Cancelled || s.status
                    == SubscriptionStatus::Paused {
                    r == Err::<i128, ForgeError>(ForgeError::InvalidInput)
                        && final(self)@ == old(self)@
                } else if s.last_charged + s.period > u64::MAX {
                    r == Err::<i128, ForgeError>(ForgeError::ArithmeticOverflow)
                        && final(self)@ == old(self)@
                } else if now < s.last_charged + s.period {
                    r == Ok::<i128, ForgeError>(0) && final(self)@ == old(self)@
                } else {
                    let failed = if s.failed_attempts == u32::MAX {
                        u32::MAX
                    } else {
                        (s.failed_attempts + 1) as u32
                    };
                    &&& r == Ok::<i128, ForgeError>(0)
                    &&& final(self)@ == old(self)@.update(
                        subscription_id - 1,
                        Subscription {
                            failed_attempts: failed,
                            status: if failed >= MAX_RETRIES {
                                SubscriptionStatus::Cancelled
                            } else {
                                SubscriptionStatus::PastDue
                            },
                            ..s
                        },
                    )
                },
            },
    {
        let idx = match self.index_of(subscription_id) {
            None => return Err(ForgeError::NotFound),
            Some(i) => i,
        };
        let s = self.subs[idx];
        if s.status == SubscriptionStatus::Cancelled || s.status == SubscriptionStatus::Paused {
            return Err(ForgeError::InvalidInput);
        }
        let next_due = match s.last_charged.checked_add(s.period) {
            None => return Err(ForgeError::ArithmeticOverflow),
            Some(t) => t,
        };
        if now < next_due {
            return Ok(0);
        }
        let failed = s.failed_attempts.saturating_add(1);
        let status = if failed >= MAX_RETRIES {
            SubscriptionStatus::Cancelled
        } else {
            SubscriptionStatus::PastDue
        };
        self.subs.set(idx, Subscription { failed_attempts: failed, status, ..s });
        Ok(0)
    }

    /// Bill, in one call, up to `max_periods` (at most
    /// [`MAX_CATCHUP_PERIODS`]) elapsed periods of an `Active`
    /// subscription, assuming every transfer succeeds; the provider
    /// authorizes. Returns the total billed. A failed transfer fails the
    /// whole call. `PastDue` subscriptions must use [`Self::charge`].
    pub fn charge_catchup(&mut self, subscription_id: u64, max_periods: u32, now: u64) -> (r:
        Outcome<i128>)
        requires
            old(self).wf(),
        ensures
            final(self).wf(),
            never_rewinds(old(self)@, final(self)@),
            if max_periods > MAX_CATCHUP_PERIODS {
                fails_with(r, ForgeError::InvalidInput, seq![]) && final(self)@ == old(self)@
            } else {
                match subscription_at(old(self)@, subscription_id) {
                    None => fails_with(r, ForgeError::NotFound, seq![])
                        && final(self)@ == old(self)@,
                    Some(s) => if s.status != SubscriptionStatus::Active {
                        fails_with(r, ForgeError::InvalidInput, seq![])
                            && final(self)@ == old(self)@
                    } else if max_periods == 0 {
                        &&& r.result == Ok::<i128, ForgeError>(0)
                        &&& r.auths@ == seq![s.provider]
                        &&& r.calls@ == Seq::<HostCall>::empty()
                        &&& final(self)@ == old(self)@
                    } else if now < s.last_charged {
                        fails_with(r, ForgeError::ArithmeticOverflow, seq![s.provider])
                            && final(self)@ == old(self)@
                    } else {
                        let due = (now - s.last_charged) / (s.period as int);
                        let n: nat = if max_periods < due {
                            max_periods as nat
                        } else {
                            due as nat
                        };
                        &&& r.auths@ == seq![s.provider]
                        &&& if n * s.amount > i128::MAX {
                            // The transfers run until the running total
                            // overflows, then the call fails.
                            let k = r.calls@.len();
                            &&& r.result == Err::<i128, ForgeError>(ForgeError::ArithmeticOverflow)
                            &&& 1 <= k <= n
                            &&& (k - 1) * s.amount <= i128::MAX < k * s.amount
                            &&& r.calls@ == period_charges(s, k)
                            &&& final(self)@ == old(self)@
                        } else {
                            &&& r.result == Ok::<i128, ForgeError>((n * s.amount) as i128)
                            &&& r.calls@ == period_charges(s, n)
                            &&& final(self)@ == if n == 0 {
                                old(self)@
                            } else {
                                old(self)@.update(
                                    subscription_id - 1,
                                    Subscription {
                                        last_charged: (s.last_charged + n * s.period) as u64,
                                        failed_attempts: 0,
                                        status: SubscriptionStatus::Active,
                                        paused_at: None,
                                        ..s
                                    },
                                )
                            }
                        }
                    },
                }
            },
    {
        if max_periods > MAX_CATCHUP_PERIODS {
            return Outcome::fail(ForgeError::InvalidInput, Vec::new());
        }
        let idx = match self.index_of(subscription_id) {
            None => return Outcome::fail(ForgeError::NotFound, Vec::new()),
            Some(i) => i,
        };
        let s = self.subs[idx];
        if s.status != SubscriptionStatus::Active {
            return Outcome::fail(ForgeError::InvalidInput, Vec::new());
        }
        if max_periods == 0 {
            return Outcome::ok(0, one_address(s.provider), Vec::new());
        }
        if now < s.last_charged {
            return Outcome::fail(ForgeError::ArithmeticOverflow, one_address(s.provider));
        }
        let elapsed = now - s.last_charged;
        let elapsed_periods = elapsed / s.period;
        let periods = if (max_periods as u64) < elapsed_periods {
            max_periods as u64
        } else {
            elapsed_periods
        };
        proof {
            lemma_fundamental_div_mod(elapsed as int, s.period as int);
            lemma_mul_inequality(periods as int, elapsed_periods as int, s.period as int);
            assert(elapsed_periods * s.period <= elapsed) by (nonlinear_arith)
                requires
                    elapsed == s.period * (elapsed / s.period) + elapsed % s.period,
                    elapsed % s.period >= 0,
                    elapsed_periods == elapsed / s.period,
            ;
        }
        let mut calls: Vec<HostCall> = Vec::new();
        let mut total: i128 = 0;
        let mut last = s.last_charged;
        let mut j: u64 = 0;
        while j < periods
            invariant
                self@ == old(self)@,
                old(self).wf(),
                subscription_at(old(self)@, subscription_id) == Some(s),
                s.status == SubscriptionStatus::Active,
                0 < max_periods <= MAX_CATCHUP_PERIODS,
                elapsed == now - s.last_charged,
                elapsed_periods == elapsed / s.period,
                periods == if (max_periods as u64) < elapsed_periods {
                    max_periods as u64
                } else {
                    elapsed_periods
                },
                j <= periods,
                periods <= max_periods,
                periods * s.period <= now - s.last_charged,
                s.amount > 0,
                s.period > 0,
                now >= s.last_charged,
                total == j * s.amount,
                last == s.last_charged + j * s.period,
                calls@ == period_charges(s, j as nat),
            decreases periods - j,
        {
            proof {
                lemma_mul_inequality(j as int + 1, periods as int, s.period as int);
                lemma_mul_is_distributive_add(s.period as int, j as int, 1);
                assert((j + 1) * s.period == j * s.period + s.period) by (nonlinear_arith);
            }
            let next_due = last + s.period;
            calls.push(
                HostCall::Transfer {
                    token: s.token,
                    from: Holder::At(s.subscriber),
                    to: Holder::At(s.provider),
                    amount: s.amount,
                },
            );
            proof {
                assert(calls@ =~= period_charges(s, (j + 1) as nat));
                assert((j + 1) * s.amount == j * s.amount + s.amount) by (nonlinear_arith);
            }
            total = match total.checked_add(s.amount) {
                None => {
                    proof {
                        lemma_mul_inequality(j as int + 1, periods as int, s.amount as int);
                    }
                    return Outcome {
                        result: Err(ForgeError::ArithmeticOverflow),
                        auths: one_address(s.provider),
                        calls,
                    };
                },
                Some(t) => t,
            };
            last = next_due;
            j = j + 1;
        }
        if periods > 0 {
            self.subs.set(
                idx,
                Subscription {
                    last_charged: last,
                    failed_attempts: 0,
                    status: SubscriptionStatus::Active,
                    paused_at: None,
                    ..s
                },
            );
        }
        Outcome::ok(total, one_address(s.provider), calls)
    }

    /// Pause an `Active` subscription at `now`. The subscriber authorizes.
    pub fn pause(&mut self, subscription_id: u64, now: u64) -> (r: Outcome<()>)
        requires
            old(self).wf(),
        ensures
            final(self).wf(),
            never_rewinds(old(self)@, final(self)@),
            match subscription_at(old(self)@, subscription_id) {
                None => fails_with(r, ForgeError::NotFound, seq![]) && final(self)@ == old(self)@,
                Some(s) => if s.status != SubscriptionStatus::Active {
                    fails_with(r, ForgeError::InvalidInput, seq![]) && final(self)@ == old(self)@
                } else {
                    &&& r.result == Ok::<(), ForgeError>(())
                    &&& r.auths@ == seq![s.subscriber]
                    &&& r.calls@ == Seq::<HostCall>::empty()
                    &&& final(self)@ == old(self)@.update(
                        subscription_id - 1,
                        Subscription {
                            status: SubscriptionStatus::Paused,
                            paused_at: Some(now),
                            ..s
                        },
                    )
                },
            },
    {
        let idx = match self.index_of(subscription_id) {
            None => return Outcome::fail(ForgeError::NotFound, Vec::new()),
            Some(i) => i,
        };
        let s = self.subs[idx];
        if s.status != SubscriptionStatus::Active {
            return Outcome::fail(ForgeError::InvalidInput, Vec::new());
        }
        self.subs.set(
            idx,
            Subscription { status: SubscriptionStatus::Paused, paused_at: Some(now), ..s },
        );
        Outcome::ok((), one_address(s.subscriber), Vec::new())
    }

    /// Resume a `Paused` subscription, pushing the next due date back by
    /// the time spent paused so paused periods are never billed. The
    /// subscriber authorizes.
    pub fn resume(&mut self, subscription_id: u64, now: u64) -> (r: Outcome<()>)
        requires
            old(self).wf(),
        ensures
            final(self).wf(),
            never_rewinds(old(self)@, final(self)@),
            match subscription_at(old(self)@, subscription_id) {
                None => fails_with(r, ForgeError::NotFound, seq![]) && final(self)@ == old(self)@,
                Some(s) => if s.status != SubscriptionStatus::Paused {
                    fails_with(r, ForgeError::InvalidInput, seq![]) && final(self)@ == old(self)@
                } else {
                    let paused_at = match s.paused_at {
                        Some(t) => t,
                        None => now,
                    };
                    if now < paused_at || s.last_charged + (now - paused_at) > u64::MAX {
                        fails_with(r, ForgeError::ArithmeticOverflow, seq![s.subscriber])
                            && final(self)@ == old(self)@
                    } else {
                        &&& r.result == Ok::<(), ForgeError>(())
                        &&& r.auths@ == seq![s.subscriber]
                        &&& r.calls@ == Seq::<HostCall>::empty()
                        &&& final(self)@ == old(self)@.update(
                            subscription_id - 1,
                            Subscription {
                                last_charged: (s.last_charged + (now - paused_at)) as u64,
                                status: SubscriptionStatus::Active,
                                paused_at: None,
                                ..s
                            },
                        )
                    }
                },
            },
    {
        let idx = match self.index_of(subscription_id) {
            None => return Outcome::fail(ForgeError::NotFound, Vec::new()),
            Some(i) => i,
        };
        let s = self.subs[idx];
        if s.status != SubscriptionStatus::Paused {
            return Outcome::fail(ForgeError::InvalidInput, Vec::new());
        }
        let paused_at = match s.paused_at {
            Some(t) => t,
            None => now,
        };
        let elapsed = match now.checked_sub(paused_at) {
            None => return Outcome::fail(ForgeError::ArithmeticOverflow, one_address(s.subscriber)),
            Some(e) => e,
        };
        let last = match s.last_charged.checked_add(elapsed) {
            None => return Outcome::fail(ForgeError::ArithmeticOverflow, one_address(s.subscriber)),
            Some(t) => t,
        };
        self.subs.set(
            idx,
            Subscription {
                last_charged: last,
                status: SubscriptionStatus::Active,
                paused_at: None,
                ..s
            },
        );
        Outcome::ok((), one_address(s.subscriber), Vec::new())
    }

    /// Cancel a subscription that is not already cancelled. The subscriber
    /// authorizes.
    pub fn cancel(&mut self, subscription_id: u64) -> (r: Outcome<()>)
        requires
            old(self).wf(),
        ensures
            final(self).wf(),
            never_rewinds(old(self)@, final(self)@),
            match subscription_at(old(self)@, subscription_id) {
                None => fails_with(r, ForgeError::NotFound, seq![]) && final(self)@ == old(self)@,
                Some(s) => if s.status == SubscriptionStatus::Cancelled {
                    fails_with(r, ForgeError::InvalidInput, seq![]) && final(self)@ == old(self)@
                } else {
                    &&& r.result == Ok::<(), ForgeError>(())
                    &&& r.auths@ == seq![s.subscriber]
                    &&& r.calls@ == Seq::<HostCall>::empty()
                    &&& final(self)@ == old(self)@.update(
                        subscription_id - 1,
                        Subscription {
                            status: SubscriptionStatus::Cancelled,
                            paused_at: None,
                            ..s
                        },
                    )
                },
            },
    {
        let idx = match self.index_of(subscription_id) {
            None => return Outcome::fail(ForgeError::NotFound, Vec::new()),
            Some(i) => i,
        };
        let s = self.subs[idx];
        if s.status == SubscriptionStatus::Cancelled {
            return Outcome::fail(ForgeError::InvalidInput, Vec::new());
        }
        self.subs.set(
            idx,
            Subscription { status: SubscriptionStatus::Cancelled, paused_at: None, ..s },
        );
        Outcome::ok((), one_address(s.subscriber), Vec::new())
    }

    /// Read a stored subscription.
    pub fn get_subscription(&self, subscription_id: u64) -> (r: Result<Subscription, ForgeError>)
        ensures
            r == match subscription_at(self@, subscription_id) {
                Some(s) => Ok::<Subscription, ForgeError>(s),
                None => Err(ForgeError::NotFound),
            },
    {
        match self.index_of(subscription_id) {
            None => Err(ForgeError::NotFound),
            Some(i) => Ok(self.subs[i]),
        }
    }

    /// Number of subscriptions created so far.
    pub fn get_subscription_count(&self) -> (n: u64)
        ensures
            n == self@.len(),
    {
        self.subs.len() as u64
    }

    /// `subscriber`'s subscriptions in creation order: skip `offset`, take
    /// at most `limit` (which must be positive).
    pub fn subscriptions_for_subscriber(&self, subscriber: Address, offset: u32, limit: u32) -> (r:
        Result<Vec<Subscription>, ForgeError>)
        ensures
            limit == 0 ==> r == Err::<Vec<Subscription>, ForgeError>(ForgeError::InvalidInput),
            limit != 0 ==> (r matches Ok(v) && ({
                let m = subscriptions_of(self@, subscriber, false);
                let lo = if offset < m.len() { offset as int } else { m.len() as int };
                let hi = if offset + limit < m.len() { offset + limit } else { m.len() as int };
                v@ == m.subrange(lo, hi)
            })),
    {
        if limit == 0 {
            return Err(ForgeError::InvalidInput);
        }
        Ok(self.page_of(subscriber, false, offset, limit))
    }

    /// `provider`'s subscriptions in creation order: skip `offset`, take at
    /// most `limit` (which must be positive).
    pub fn subscriptions_for_provider(&self, provider: Address, offset: u32, limit: u32) -> (r:
        Result<Vec<Subscription>, ForgeError>)
        ensures
            limit == 0 ==> r == Err::<Vec<Subscription>, ForgeError>(ForgeError::InvalidInput),
            limit != 0 ==> (r matches Ok(v) && ({
                let m = subscriptions_of(self@, provider, true);
                let lo = if offset < m.len() { offset as int } else { m.len() as int };
                let hi = if offset + limit < m.len() { offset + limit } else { m.len() as int };
                v@ == m.subrange(lo, hi)
            })),
    {
        if limit == 0 {
            return Err(ForgeError::InvalidInput);
        }
        Ok(self.page_of(provider, true, offset, limit))
    }

    fn page_of(&self, a: Address, as_provider: bool, offset: u32, limit: u32) -> (v: Vec<
        Subscription,
    >)
        ensures
            ({
                let m = subscriptions_of(self@, a, as_provider);
                let lo = if offset < m.len() { offset as int } else { m.len() as int };
                let hi = if offset + limit < m.len() { offset + limit } else { m.len() as int };
                v@ == m.subrange(lo, hi)
            }),
    {
        let mut all: Vec<Subscription> = Vec::new();
        let mut i: usize = 0;
        while i < self.subs.len()
            invariant
                i <= self@.len(),
                self@ == self.subs@,
                all@ == subscriptions_of(self@.subrange(0, i as int), a, as_provider),
            decreases self@.len() - i,
        {
            proof {
                assert(self@.subrange(0, i + 1).drop_last() =~= self@.subrange(0, i as int));
            }
            let s = self.subs[i];
            let party = if as_provider {
                s.provider
            } else {
                s.subscriber
            };
            if party == a {
                all.push(s);
            }
            i += 1;
        }
        proof {
            assert(self@.subrange(0, self@.len() as int) =~= self@);
        }
        let n = all.len();
        let lo = if (offset as usize) < n {
            offset as usize
        } else {
            n
        };
        let sum = offset as u64 + limit as u64;
        let hi = if sum < n as u64 {
            sum as usize
        } else {
            n
        };
        let mut out: Vec<Subscription> = Vec::new();
        let mut k = lo;
        while k < hi
            invariant
                lo <= k <= hi <= n,
                n == all@.len(),
                out@ == all@.subrange(lo as int, k as int),
            decreases hi - k,
        {
            out.push(all[k]);
            proof {
                assert(out@ =~= all@.subrange(lo as int, k + 1));
            }
            k += 1;
        }
        out
    }
}

} // verus!
