//! Linear token vesting behind an optional cliff.
//!
//! ```text
//! start ......... start+cliff ................... start+duration
//!   |  Locked    |            Vesting (linear)  |  fully vested
//! ```
//!
//! The vested amount at time `t` is `0` before `start + cliff`,
//! `total_amount` from `start + duration` on, and in between
//! `total_amount * (t - (start + cliff)) / (duration - cliff)` with floor
//! division, so claims never round up.
use vstd::prelude::*;
use vstd::arithmetic::div_mod::{lemma_div_is_ordered, lemma_div_multiples_vanish, lemma_div_pos_is_pos};
use vstd::arithmetic::mul::{lemma_mul_inequality, lemma_mul_nonnegative, lemma_mul_is_commutative};
use crate::errors::ForgeError;
use crate::types::Address;
use crate::effects::{fails_with, lemma_net_inflow_one, net_inflow, one_address, one_call, transfer_call, Holder, HostCall, Outcome};

verus! {

/// Lifecycle state of a vesting schedule.
#[derive(Clone, Copy, Debug, PartialEq, Eq, Structural)]
pub enum VestingStatus {
    /// Before the cliff has been reached.
    Locked,
    /// Past the cliff; tokens are vesting linearly.
    Vesting,
    /// Fully vested and claimed.
    Completed,
    /// Schedule was terminated before completion (reserved).
    Revoked,
}

/// A single token-vesting schedule.
#[derive(Clone, Copy, Debug, PartialEq, Eq, Structural)]
pub struct VestingSchedule {
    /// Recipient of the vested tokens.
    pub beneficiary: Address,
    /// Token paid out on claims.
    pub token: Address,
    /// Total amount to vest.
    pub total_amount: i128,
    /// Ledger timestamp at which vesting begins (creation time).
    pub start: u64,
    /// Seconds after `start` at which claims become possible.
    pub cliff: u64,
    /// Seconds after `start` at which the schedule is fully vested.
    pub duration: u64,
    /// Amount already claimed by the beneficiary.
    pub claimed: i128,
    /// Status recorded at the last write.
    pub status: VestingStatus,
}

impl VestingSchedule {
    /// The invariant of one schedule: never more claimed than the total.
    pub open spec fn wf(self) -> bool {
        &&& self.total_amount > 0
        &&& self.duration > 0
        &&& self.cliff <= self.duration
        &&& 0 <= self.claimed <= self.total_amount
    }
}

/// The status of `s` at time `now`.
pub open spec fn status_at(s: VestingSchedule, now: u64) -> Result<VestingStatus, ForgeError> {
    if s.claimed >= s.total_amount {
        Ok(VestingStatus::Completed)
    } else if s.start + s.cliff > u64::MAX {
        Err(ForgeError::ArithmeticOverflow)
    } else if now < s.start + s.cliff {
        Ok(VestingStatus::Locked)
    } else {
        Ok(VestingStatus::Vesting)
    }
}

/// The linear part of the schedule: `total * elapsed / period`, floored.
pub open spec fn linear_vested(total: int, elapsed: int, period: int) -> int {
    (total * elapsed) / period
}

/// The amount of `s` vested at time `now`.
pub open spec fn vested_at(s: VestingSchedule, now: u64) -> Result<i128, ForgeError> {
    if s.start + s.cliff > u64::MAX {
        Err(ForgeError::ArithmeticOverflow)
    } else if now < s.start + s.cliff {
        Ok(0)
    } else if s.start + s.duration > u64::MAX {
        Err(ForgeError::ArithmeticOverflow)
    } else if now >= s.start + s.duration {
        Ok(s.total_amount)
    } else if s.total_amount * (now - (s.start + s.cliff)) > i128::MAX {
        Err(ForgeError::ArithmeticOverflow)
    } else {
        Ok(
            linear_vested(
                s.total_amount as int,
                now - (s.start + s.cliff),
                s.duration - s.cliff,
            ) as i128,
        )
    }
}

/// The amount of `s` claimable at time `now`: vested minus claimed.
pub open spec fn claimable_at(s: VestingSchedule, now: u64) -> Result<i128, ForgeError> {
    match vested_at(s, now) {
        Ok(v) => Ok((v - s.claimed) as i128),
        Err(e) => Err(e),
    }
}

/// The floored linear share lies between nothing and the total.
pub proof fn lemma_linear_vested_bounds(total: int, elapsed: int, period: int)
    requires
        total > 0,
        0 <= elapsed <= period,
        period > 0,
    ensures
        0 <= linear_vested(total, elapsed, period) <= total,
{
    lemma_mul_nonnegative(total, elapsed);
    lemma_div_pos_is_pos(total * elapsed, period);
    lemma_mul_inequality(elapsed, period, total);
    lemma_mul_is_commutative(elapsed, total);
    lemma_mul_is_commutative(period, total);
    lemma_div_is_ordered(total * elapsed, total * period, period);
    lemma_div_multiples_vanish(total, period);
    lemma_mul_is_commutative(period, total);
}

/// The floored linear share never decreases as time passes.
pub proof fn lemma_linear_vested_monotonic(total: int, e1: int, e2: int, period: int)
    requires
        total > 0,
        0 <= e1 <= e2,
        period > 0,
    ensures
        linear_vested(total, e1, period) <= linear_vested(total, e2, period),
{
    lemma_mul_inequality(e1, e2, total);
    lemma_mul_is_commutative(e1, total);
    lemma_mul_is_commutative(e2, total);
    lemma_div_is_ordered(total * e1, total * e2, period);
}

/// What vests is never negative and never more than the total.
pub proof fn lemma_vested_bounds(s: VestingSchedule, now: u64)
    requires
        s.wf(),
    ensures
        vested_at(s, now) matches Ok(v) ==> 0 <= v <= s.total_amount,
{
    if s.start + s.cliff <= u64::MAX && now >= s.start + s.cliff && s.start + s.duration
        <= u64::MAX && now < s.start + s.duration {
        lemma_linear_vested_bounds(
            s.total_amount as int,
            now - (s.start + s.cliff),
            s.duration - s.cliff,
        );
    }
}

/// Vesting is monotonic in time: a later moment never has less vested.
pub proof fn lemma_vested_monotonic(s: VestingSchedule, t1: u64, t2: u64)
    requires
        s.wf(),
        t1 <= t2,
    ensures
        vested_at(s, t1) matches Ok(v1) ==> (vested_at(s, t2) matches Ok(v2) ==> v1 <= v2),
{
    lemma_vested_bounds(s, t1);
    lemma_vested_bounds(s, t2);
    if s.start + s.cliff <= u64::MAX && t1 >= s.start + s.cliff && s.start + s.duration
        <= u64::MAX && t2 < s.start + s.duration {
        lemma_linear_vested_monotonic(
            s.total_amount as int,
            t1 - (s.start + s.cliff),
            t2 - (s.start + s.cliff),
            s.duration - s.cliff,
        );
    }
}

fn current_status(s: &VestingSchedule, now: u64) -> (r: Result<VestingStatus, ForgeError>)
    ensures
        r == status_at(*s, now),
{
    if s.claimed >= s.total_amount {
        return Ok(VestingStatus::Completed);
    }
    let cliff_time = match s.start.checked_add(s.cliff) {
        None => return Err(ForgeError::ArithmeticOverflow),
        Some(t) => t,
    };
    if now < cliff_time {
        Ok(VestingStatus::Locked)
    } else {
        Ok(VestingStatus::Vesting)
    }
}

fn vested_amount(s: &VestingSchedule, now: u64) -> (r: Result<i128, ForgeError>)
    requires
        s.wf(),
    ensures
        r == vested_at(*s, now),
{
    let cliff_time = match s.start.checked_add(s.cliff) {
        None => return Err(ForgeError::ArithmeticOverflow),
        Some(t) => t,
    };
    if now < cliff_time {
        return Ok(0);
    }
    let end_time = match s.start.checked_add(s.duration) {
        None => return Err(ForgeError::ArithmeticOverflow),
        Some(t) => t,
    };
    if now >= end_time {
        return Ok(s.total_amount);
    }
    let period = end_time - cliff_time;
    let elapsed = now - cliff_time;
    let product = match s.total_amount.checked_mul(elapsed as i128) {
        None => return Err(ForgeError::ArithmeticOverflow),
        Some(p) => p,
    };
    proof {
        lemma_mul_nonnegative(s.total_amount as int, elapsed as int);
        lemma_linear_vested_bounds(s.total_amount as int, elapsed as int, period as int);
    }
    let vested = (product as u128 / period as u128) as i128;
    Ok(vested)
}

fn claimable_amount(s: &VestingSchedule, now: u64) -> (r: Result<i128, ForgeError>)
    requires
        s.wf(),
    ensures
        r == claimable_at(*s, now),
{
    proof {
        lemma_vested_bounds(*s, now);
    }
    match vested_amount(s, now) {
        Err(e) => Err(e),
        Ok(v) => Ok(v - s.claimed),
    }
}

/// The schedule after one claim at `now`: what is claimable is added to
/// the claimed total and the status is brought up to date; a claim that
/// fails or finds nothing to pay leaves the schedule as it was.
pub open spec fn claim_step(s: VestingSchedule, now: u64) -> VestingSchedule {
    match claimable_at(s, now) {
        Ok(amount) => if amount == 0 {
            s
        } else {
            let claimed = (s.claimed + amount) as i128;
            match status_at(VestingSchedule { claimed, ..s }, now) {
                Ok(st) => VestingSchedule { claimed, status: st, ..s },
                Err(_) => s,
            }
        },
        Err(_) => s,
    }
}

/// The schedule after claims at each of `times`, in order.
pub open spec fn after_claims(s: VestingSchedule, times: Seq<u64>) -> VestingSchedule
    decreases times.len(),
{
    if times.len() == 0 {
        s
    } else {
        claim_step(after_claims(s, times.drop_last()), times.last())
    }
}

/// The schedule with id `id`, if any: ids are `1..=len` in creation order.
pub open spec fn schedule_at(s: Seq<VestingSchedule>, id: u64) -> Option<VestingSchedule> {
    if 1 <= id <= s.len() {
        Some(s[id - 1])
    } else {
        None
    }
}

/// Well-formedness of the schedule table.
pub open spec fn schedules_wf(s: Seq<VestingSchedule>) -> bool {
    forall|i: int| 0 <= i < s.len() ==> (#[trigger] s[i]).wf()
}

/// The state of the vesting contract: every schedule, in creation order.
pub struct Vesting {
    schedules: Vec<VestingSchedule>,
}

impl View for Vesting {
    type V = Seq<VestingSchedule>;

    closed spec fn view(&self) -> Seq<VestingSchedule> {
        self.schedules@
    }
}

impl Vesting {
    /// The contract invariant.
    pub open spec fn wf(&self) -> bool {
        schedules_wf(self@)
    }

    /// A vesting contract with no schedules.
    pub fn new() -> (v: Self)
        ensures
            v.wf(),
            v@ == Seq::<VestingSchedule>::empty(),
    {
        Vesting { schedules: Vec::new() }
    }

    /// Rebuild the contract from stored schedules, refusing any that break
    /// the invariant.
    pub fn from_records(records: Vec<VestingSchedule>) -> (r: Option<Self>)
        ensures
            r matches Some(v) ==> v.wf() && v@ == records@,
            r is None <==> !schedules_wf(records@),
    {
        let mut i: usize = 0;
        while i < records.len()
            invariant
                i <= records.len(),
                forall|j: int| 0 <= j < i ==> (#[trigger] records@[j]).wf(),
            decreases records.len() - i,
        {
            let s = records[i];
            if !(s.total_amount > 0 && s.duration > 0 && s.cliff <= s.duration && 0 <= s.claimed
                && s.claimed <= s.total_amount) {
                return None;
            }
            i += 1;
        }
        Some(Vesting { schedules: records })
    }

    /// The stored schedules, in creation order.
    pub fn records(&self) -> (r: &Vec<VestingSchedule>)
        ensures
            r@ == self@,
    {
        &self.schedules
    }

    fn index_of(&self, schedule_id: u64) -> (r: Option<usize>)
        ensures
            schedule_at(self@, schedule_id) is None <==> r is None,
            r matches Some(i) ==> i as int == schedule_id - 1 && i < self@.len(),
    {
        if schedule_id == 0 || schedule_id as u128 > self.schedules.len() as u128 {
            None
        } else {
            Some((schedule_id - 1) as usize)
        }
    }

    /// Create a schedule for `beneficiary`, starting at `now`, and return
    /// its stable id. Requires `total_amount > 0`, `duration > 0` and
    /// `cliff <= duration`; the beneficiary authorizes.
    pub fn create_schedule(
        &mut self,
        beneficiary: Address,
        token: Address,
        total_amount: i128,
        cliff: u64,
        duration: u64,
        now: u64,
    ) -> (r: Outcome<u64>)
        requires
            old(self).wf(),
        ensures
            final(self).wf(),
            ({
                let fresh = VestingSchedule {
                    beneficiary,
                    token,
                    total_amount,
                    start: now,
                    cliff,
                    duration,
                    claimed: 0,
                    status: VestingStatus::Locked,
                };
                if total_amount <= 0 || duration == 0 || cliff > duration {
                    fails_with(r, ForgeError::InvalidInput, seq![]) && final(self)@ == old(self)@
                } else if old(self)@.len() == u64::MAX {
                    fails_with(r, ForgeError::ArithmeticOverflow, seq![beneficiary])
                        && final(self)@ == old(self)@
                } else {
                    match status_at(fresh, now) {
                        Err(e) => fails_with(r, e, seq![beneficiary]) && final(self)@ == old(
                            self,
                        )@,
                        Ok(st) => {
                            &&& r.result == Ok::<u64, ForgeError>((old(self)@.len() + 1) as u64)
                            &&& r.auths@ == seq![beneficiary]
                            &&& r.calls@ == Seq::<HostCall>::empty()
                            &&& final(self)@ == old(self)@.push(
                                VestingSchedule { status: st, ..fresh },
                            )
                        },
                    }
                }
            }),
    {
        if total_amount <= 0 || duration == 0 || cliff > duration {
            return Outcome::fail(ForgeError::InvalidInput, Vec::new());
        }
        let count = self.schedules.len() as u64;
        if count == u64::MAX {
            return Outcome::fail(ForgeError::ArithmeticOverflow, one_address(beneficiary));
        }
        let id = count + 1;
        let fresh = VestingSchedule {
            beneficiary,
            token,
            total_amount,
            start: now,
            cliff,
            duration,
            claimed: 0,
            status: VestingStatus::Locked,
        };
        let status = match current_status(&fresh, now) {
            Err(e) => return Outcome::fail(e, one_address(beneficiary)),
            Ok(st) => st,
        };
        self.schedules.push(VestingSchedule { status, ..fresh });
        proof {
            assert(forall|i: int| 0 <= i < old(self)@.len() ==> self@[i] == old(self)@[i]);
        }
        Outcome::ok(id, one_address(beneficiary), Vec::new())
    }

    /// Claim what has vested but not been claimed as of `now`. The
    /// beneficiary authorizes; a zero claim changes nothing and moves no
    /// tokens, any other claim pays the beneficiary out of the contract.
    pub fn claim(&mut self, schedule_id: u64, now: u64) -> (r: Outcome<i128>)
        requires
            old(self).wf(),
        ensures
            final(self).wf(),
            match schedule_at(old(self)@, schedule_id) {
                None => fails_with(r, ForgeError::NotFound, seq![]) && final(self)@ == old(self)@,
                Some(s) => match claimable_at(s, now) {
                    Err(e) => fails_with(r, e, seq![s.beneficiary]) && final(self)@ == old(self)@,
                    Ok(amount) => if amount == 0 {
                        &&& r.result == Ok::<i128, ForgeError>(0)
                        &&& r.auths@ == seq![s.beneficiary]
                        &&& r.calls@ == Seq::<HostCall>::empty()
                        &&& final(self)@ == old(self)@
                    } else {
                        let claimed = (s.claimed + amount) as i128;
                        &&& r.result == Ok::<i128, ForgeError>(amount)
                        &&& r.auths@ == seq![s.beneficiary]
                        &&& r.calls@ == seq![
                            transfer_call(s.token, Holder::This, Holder::At(s.beneficiary), amount),
                        ]
                        &&& status_at(VestingSchedule { claimed, ..s }, now) is Ok
                        &&& final(self)@ == old(self)@.update(
                            schedule_id - 1,
                            VestingSchedule {
                                claimed,
                                status: status_at(VestingSchedule { claimed, ..s }, now)->Ok_0,
                                ..s
                            },
                        )
                    },
                },
            },
            // The schedule moves by exactly one claim step at `now`.
            schedule_at(old(self)@, schedule_id) matches Some(s) ==> final(self)@ == old(
                self,
            )@.update(schedule_id - 1, claim_step(s, now)),
            // A successful claim leaves exactly what has vested claimed.
            schedule_at(old(self)@, schedule_id) matches Some(s) ==> (r.result is Ok ==> (
            vested_at(s, now) matches Ok(v) && final(self)@[schedule_id - 1].claimed == v)),
            // What leaves the contract is exactly what the claimed total grows by.
            schedule_at(old(self)@, schedule_id) matches Some(s) ==> (r.result is Ok ==> net_inflow(
                r.calls@,
                s.token,
            ) == s.claimed - final(self)@[schedule_id - 1].claimed),
    {
        let idx = match self.index_of(schedule_id) {
            None => return Outcome::fail(ForgeError::NotFound, Vec::new()),
            Some(i) => i,
        };
        let s = self.schedules[idx];
        assert(s.wf());
        proof {
            lemma_vested_bounds(s, now);
        }
        let amount = match claimable_amount(&s, now) {
            Err(e) => return Outcome::fail(e, one_address(s.beneficiary)),
            Ok(a) => a,
        };
        if amount == 0 {
            return Outcome::ok(0, one_address(s.beneficiary), Vec::new());
        }
        let claimed = s.claimed + amount;
        let updated = VestingSchedule { claimed, ..s };
        let status = match current_status(&updated, now) {
            Err(e) => return Outcome::fail(e, one_address(s.beneficiary)),
            Ok(st) => st,
        };
        let call = HostCall::Transfer {
            token: s.token,
            from: Holder::This,
            to: Holder::At(s.beneficiary),
            amount,
        };
        self.schedules.set(idx, VestingSchedule { status, ..updated });
        proof {
            lemma_net_inflow_one(call, s.token);
        }
        Outcome::ok(amount, one_address(s.beneficiary), one_call(call))
    }

    /// The amount claimable from `schedule_id` at `now` (read-only).
    pub fn claimable(&self, schedule_id: u64, now: u64) -> (r: Result<i128, ForgeError>)
        requires
            self.wf(),
        ensures
            r == match schedule_at(self@, schedule_id) {
                Some(s) => claimable_at(s, now),
                None => Err(ForgeError::NotFound),
            },
    {
        match self.index_of(schedule_id) {
            None => Err(ForgeError::NotFound),
            Some(i) => claimable_amount(&self.schedules[i], now),
        }
    }

    /// The status of `schedule_id` at `now`, derived from time and the
    /// claimed amount rather than the stored field (read-only).
    pub fn get_status(&self, schedule_id: u64, now: u64) -> (r: Result<VestingStatus, ForgeError>)
        ensures
            r == match schedule_at(self@, schedule_id) {
                Some(s) => status_at(s, now),
                None => Err(ForgeError::NotFound),
            },
    {
        match self.index_of(schedule_id) {
            None => Err(ForgeError::NotFound),
            Some(i) => current_status(&self.schedules[i], now),
        }
    }

    /// Read a stored schedule.
    pub fn get_schedule(&self, schedule_id: u64) -> (r: Result<VestingSchedule, ForgeError>)
        ensures
            r == match schedule_at(self@, schedule_id) {
                Some(s) => Ok::<VestingSchedule, ForgeError>(s),
                None => Err(ForgeError::NotFound),
            },
    {
        match self.index_of(schedule_id) {
            None => Err(ForgeError::NotFound),
            Some(i) => Ok(self.schedules[i]),
        }
    }

    /// Keeper entry point: succeeds exactly when the schedule exists.
    pub fn touch_ttl(&self, schedule_id: u64) -> (r: Result<(), ForgeError>)
        ensures
            r == match schedule_at(self@, schedule_id) {
                Some(_) => Ok::<(), ForgeError>(()),
                None => Err(ForgeError::NotFound),
            },
    {
        match self.index_of(schedule_id) {
            None => Err(ForgeError::NotFound),
            Some(_) => Ok(()),
        }
    }
}


/// What is claimed plus what is claimable never exceeds the total: floor
/// rounding never lets a schedule pay out more than it holds.
pub proof fn lemma_claimed_plus_claimable_bounded(s: VestingSchedule, now: u64)
    requires
        s.wf(),
    ensures
        claimable_at(s, now) matches Ok(c) ==> 0 <= s.claimed + c <= s.total_amount,
{
    lemma_vested_bounds(s, now);
}

/// With no claim in between, what is claimable never shrinks as time passes.
pub proof fn lemma_claimable_monotonic(s: VestingSchedule, t1: u64, t2: u64)
    requires
        s.wf(),
        t1 <= t2,
    ensures
        claimable_at(s, t1) matches Ok(c1) ==> (claimable_at(s, t2) matches Ok(c2) ==> c1 <= c2),
{
    lemma_vested_monotonic(s, t1, t2);
}

/// Once what has vested at `now` is claimed, nothing more is claimable at
/// `now`: a second claim at the same time pays nothing.
pub proof fn lemma_claim_exhausts(s: VestingSchedule, now: u64, status: VestingStatus)
    requires
        s.wf(),
        vested_at(s, now) is Ok,
    ensures
        claimable_at(
            VestingSchedule { claimed: vested_at(s, now)->Ok_0, status, ..s },
            now,
        ) == Ok::<i128, ForgeError>(0),
{
}

/// Claims at non-decreasing times never lower the claimed total: after a
/// claim at `t1`, whatever is claimable at a later `t2` is not negative.
pub proof fn lemma_claimed_never_decreases(s: VestingSchedule, t1: u64, t2: u64)
    requires
        s.wf(),
        t1 <= t2,
        vested_at(s, t1) matches Ok(v) && s.claimed == v,
    ensures
        claimable_at(s, t2) matches Ok(c) ==> c >= 0,
{
    lemma_vested_monotonic(s, t1, t2);
}


/// No claim changes what vests, only what is claimed: the parameters of a
/// schedule stay as they were created.
proof fn lemma_claims_keep_terms(s: VestingSchedule, times: Seq<u64>)
    requires
        s.wf(),
    ensures
        ({
            let a = after_claims(s, times);
            &&& a.wf()
            &&& a.beneficiary == s.beneficiary && a.token == s.token
            &&& a.total_amount == s.total_amount && a.start == s.start
            &&& a.cliff == s.cliff && a.duration == s.duration
            &&& forall|t: u64| vested_at(a, t) == vested_at(s, t)
        }),
    decreases times.len(),
{
    if times.len() > 0 {
        lemma_claims_keep_terms(s, times.drop_last());
        let b = after_claims(s, times.drop_last());
        lemma_vested_bounds(b, times.last());
    }
}

/// After claims at non-decreasing times, nothing is claimed beyond what
/// has vested at the last of them or at any later time.
proof fn lemma_claims_within_vested(s: VestingSchedule, times: Seq<u64>)
    requires
        s.wf(),
        s.claimed == 0,
        forall|i: int, j: int| 0 <= i <= j < times.len() ==> times[i] <= times[j],
    ensures
        forall|t: u64|
            (times.len() == 0 || times.last() <= t) ==> (#[trigger] vested_at(s, t) matches Ok(v)
                ==> after_claims(s, times).claimed <= v),
    decreases times.len(),
{
    lemma_claims_keep_terms(s, times);
    if times.len() == 0 {
        assert forall|t: u64| (#[trigger] vested_at(s, t) matches Ok(v) ==> s.claimed <= v) by {
            lemma_vested_bounds(s, t);
        }
    } else {
        let d = times.drop_last();
        let now = times.last();
        lemma_claims_within_vested(s, d);
        lemma_claims_keep_terms(s, d);
        let b = after_claims(s, d);
        if d.len() > 0 {
            assert(d.last() == times[d.len() - 1]);
        }
        assert forall|t: u64| now <= t implies (#[trigger] vested_at(s, t) matches Ok(v)
            ==> after_claims(s, times).claimed <= v) by {
            lemma_vested_monotonic(s, now, t);
            lemma_vested_bounds(s, t);
        }
    }
}

/// Claims can never drive what is claimable below zero: for a schedule
/// created with nothing claimed, after claims at non-decreasing ledger
/// times, what is claimable at any time no earlier than the last claim is
/// not negative, and together with what was claimed it never exceeds the
/// total. The ledger clock never runs backwards, so these are all the
/// times at which `claimable` can be asked.
pub proof fn lemma_claimable_never_negative(s: VestingSchedule, times: Seq<u64>, now: u64)
    requires
        s.wf(),
        s.claimed == 0,
        forall|i: int, j: int| 0 <= i <= j < times.len() ==> times[i] <= times[j],
        forall|i: int| 0 <= i < times.len() ==> #[trigger] times[i] <= now,
    ensures
        after_claims(s, times).wf(),
        claimable_at(after_claims(s, times), now) matches Ok(c) ==> 0 <= c && after_claims(
            s,
            times,
        ).claimed + c <= s.total_amount,
{
    lemma_claims_keep_terms(s, times);
    lemma_claims_within_vested(s, times);
    if times.len() > 0 {
        assert(times[times.len() - 1] <= now);
    }
    lemma_vested_bounds(s, now);
    assert(vested_at(after_claims(s, times), now) == vested_at(s, now));
}

} // verus!
