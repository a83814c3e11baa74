//! What a contract invocation asks of the host.
//!
//! The contracts in this library decide; the host acts. Every entry point
//! returns an [`Outcome`]: the result, the addresses whose authorization
//! the invocation requires (in the order the checks are reached), and the
//! calls into other contracts (token transfers, target invocations) that
//! must all succeed, in order, before the new state may be kept. A failed
//! call aborts the whole invocation: the host then keeps the old state and
//! reports the call's error. An error result may still list calls: those
//! the invocation makes before the step that fails.
use vstd::prelude::*;
use crate::errors::ForgeError;
use crate::types::Address;

verus! {

/// One side of a token transfer.
#[derive(Clone, Copy, Debug, PartialEq, Eq, Structural)]
pub enum Holder {
    /// The contract that performs the invocation.
    This,
    /// Any other address.
    At(Address),
}

/// A call into another contract.
#[derive(Clone, Debug)]
pub enum HostCall {
    /// A SEP-41 `transfer` of `amount` of `token` from `from` to `to`. A
    /// failure is reported as [`ForgeError::TokenTransferFailed`].
    Transfer { token: Address, from: Holder, to: Holder, amount: i128 },
    /// `target.execute(payload)`. A failure is reported as
    /// [`ForgeError::ContractInvocationFailed`].
    Invoke { target: Address, payload: Vec<u8> },
}

impl HostCall {
    /// A copy of a transfer call.
    pub fn clone_call(&self) -> (c: HostCall)
        requires
            self is Transfer,
        ensures
            c == *self,
    {
        match self {
            HostCall::Transfer { token, from, to, amount } => HostCall::Transfer {
                token: *token,
                from: *from,
                to: *to,
                amount: *amount,
            },
            HostCall::Invoke { .. } => {
                proof {
                    assert(false);
                }
                HostCall::Transfer { token: Address::account(0), from: Holder::This, to: Holder::This, amount: 0 }
            },
        }
    }
}

/// The spec form of a transfer call.
pub open spec fn transfer_call(token: Address, from: Holder, to: Holder, amount: i128) -> HostCall {
    HostCall::Transfer { token, from, to, amount }
}

/// Amount of `token` that one call moves into the invoking contract
/// (negative when it moves tokens out).
pub open spec fn call_inflow(c: HostCall, token: Address) -> int {
    match c {
        HostCall::Transfer { token: t, from, to, amount } => if t != token {
            0
        } else if to == Holder::This && from != Holder::This {
            amount as int
        } else if from == Holder::This && to != Holder::This {
            -amount
        } else {
            0
        },
        HostCall::Invoke { .. } => 0,
    }
}

/// Net amount of `token` that `calls` move into the invoking contract.
pub open spec fn net_inflow(calls: Seq<HostCall>, token: Address) -> int
    decreases calls.len(),
{
    if calls.len() == 0 {
        0
    } else {
        net_inflow(calls.drop_last(), token) + call_inflow(calls.last(), token)
    }
}

/// The net inflow of a single call.
pub proof fn lemma_net_inflow_one(c: HostCall, token: Address)
    ensures
        net_inflow(seq![c], token) == call_inflow(c, token),
        net_inflow(Seq::<HostCall>::empty(), token) == 0,
{
    assert(seq![c].drop_last() =~= Seq::<HostCall>::empty());
    assert(seq![c].last() == c);
    assert(net_inflow(seq![c].drop_last(), token) == 0);
}

/// The net inflow of two calls is the sum of their inflows.
pub proof fn lemma_net_inflow_two(a: HostCall, b: HostCall, token: Address)
    ensures
        net_inflow(seq![a, b], token) == call_inflow(a, token) + call_inflow(b, token),
{
    assert(seq![a, b].drop_last() =~= seq![a]);
    assert(seq![a, b].last() == b);
    lemma_net_inflow_one(a, token);
}

/// The sum of the amounts of the transfers among `calls`.
pub open spec fn transfer_total(calls: Seq<HostCall>) -> int
    decreases calls.len(),
{
    if calls.len() == 0 {
        0
    } else {
        transfer_total(calls.drop_last()) + match calls.last() {
            HostCall::Transfer { amount, .. } => amount as int,
            HostCall::Invoke { .. } => 0,
        }
    }
}

/// The transfer total of two call lists one after the other is the sum of
/// their totals.
pub proof fn lemma_transfer_total_concat(a: Seq<HostCall>, b: Seq<HostCall>)
    ensures
        transfer_total(a + b) == transfer_total(a) + transfer_total(b),
    decreases b.len(),
{
    if b.len() == 0 {
        assert(a + b =~= a);
    } else {
        assert((a + b).drop_last() =~= a + b.drop_last());
        assert((a + b).last() == b.last());
        lemma_transfer_total_concat(a, b.drop_last());
    }
}

/// The result of an entry point, with the authorizations it requires and
/// the host calls it makes.
#[derive(Debug)]
pub struct Outcome<T> {
    pub result: Result<T, ForgeError>,
    /// Addresses whose `require_auth` the invocation reaches, in order.
    pub auths: Vec<Address>,
    /// Calls into other contracts, in order.
    pub calls: Vec<HostCall>,
}

/// `o` fails with `e` after requiring exactly `auths` and calling nothing.
pub open spec fn fails_with<T>(o: Outcome<T>, e: ForgeError, auths: Seq<Address>) -> bool {
    &&& o.result == Err::<T, ForgeError>(e)
    &&& o.auths@ == auths
    &&& o.calls@ == Seq::<HostCall>::empty()
}

impl<T> Outcome<T> {
    /// An outcome that fails with `e`, requiring `auths` first.
    pub fn fail(e: ForgeError, auths: Vec<Address>) -> (o: Self)
        ensures
            fails_with(o, e, auths@),
    {
        Outcome { result: Err(e), auths, calls: Vec::new() }
    }

    /// A successful outcome.
    pub fn ok(v: T, auths: Vec<Address>, calls: Vec<HostCall>) -> (o: Self)
        ensures
            o.result == Ok::<T, ForgeError>(v),
            o.auths@ == auths@,
            o.calls@ == calls@,
    {
        Outcome { result: Ok(v), auths, calls }
    }
}

/// A vector holding one address.
pub fn one_address(a: Address) -> (v: Vec<Address>)
    ensures
        v@ == seq![a],
{
    let mut v: Vec<Address> = Vec::new();
    v.push(a);
    v
}

/// A vector holding one call.
pub fn one_call(c: HostCall) -> (v: Vec<HostCall>)
    ensures
        v@ == seq![c],
{
    let mut v: Vec<HostCall> = Vec::new();
    v.push(c);
    v
}

} // verus!
