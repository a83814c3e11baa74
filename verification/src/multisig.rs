//! A multi-signature wallet: `threshold` owner confirmations execute a
//! transaction, `threshold` owner rejections kill it, and a single
//! rejection blocks execution.
//!
//! ```text
//! submit --(confirm x n)--> threshold met --execute--> Executed
//! submit --(reject x n)--> rejection threshold met --> Rejected (terminal)
//! ```
//!
//! Each owner signals at most once per transaction, in one direction.
//! The wallet also custodies token balances: anyone may deposit once it is
//! initialized, and only an executed withdrawal transaction moves tokens
//! out.
use vstd::prelude::*;
use crate::errors::ForgeError;
use crate::types::{copy_addresses, copy_bytes, contains_address, Address};
use crate::effects::{fails_with, one_address, one_call, transfer_call, Holder, HostCall, Outcome};
use crate::keyed::{get_value, lemma_lookup_some, lookup, put_value};

verus! {

/// Lifecycle state of a submitted transaction.
#[derive(Clone, Copy, Debug, PartialEq, Eq, Structural)]
pub enum TxStatus {
    /// Open for confirmations; threshold not yet met.
    Pending,
    /// Threshold met and executed successfully.
    Executed,
    /// Rejected by owners (reached the rejection threshold); terminal.
    Rejected,
}

/// A typed token withdrawal.
#[derive(Clone, Copy, Debug, PartialEq, Eq, Structural)]
pub struct Withdrawal {
    /// Token to move out of custody.
    pub token: Address,
    /// Recipient of the tokens.
    pub destination: Address,
    /// Amount to move; positive.
    pub amount: i128,
}

/// What a submitted transaction carries.
#[derive(Clone, Copy, Debug, PartialEq, Eq, Structural)]
pub enum TxKind {
    /// Opaque payload dispatched to the target on execution.
    Opaque,
    /// Typed token withdrawal.
    Withdrawal(Withdrawal),
}

/// A transaction awaiting multi-signature approval.
#[derive(Clone, Debug)]
pub struct WalletTx {
    /// Stable identifier assigned at submission time.
    pub tx_id: u64,
    /// Owner that submitted the transaction.
    pub submitter: Address,
    /// Contract invoked on execution.
    pub target: Address,
    /// Payload passed to the target.
    pub payload: Vec<u8>,
    /// Owners that have confirmed so far, in order.
    pub confirmations: Vec<Address>,
    /// Owners that have objected so far, in order.
    pub rejections: Vec<Address>,
    /// Current state.
    pub status: TxStatus,
    /// Opaque payload or typed withdrawal.
    pub kind: TxKind,
}

/// The mathematical content of a [`WalletTx`].
pub struct WalletTxView {
    pub tx_id: u64,
    pub submitter: Address,
    pub target: Address,
    pub payload: Seq<u8>,
    pub confirmations: Seq<Address>,
    pub rejections: Seq<Address>,
    pub status: TxStatus,
    pub kind: TxKind,
}

impl View for WalletTx {
    type V = WalletTxView;

    open spec fn view(&self) -> WalletTxView {
        WalletTxView {
            tx_id: self.tx_id,
            submitter: self.submitter,
            target: self.target,
            payload: self.payload@,
            confirmations: self.confirmations@,
            rejections: self.rejections@,
            status: self.status,
            kind: self.kind,
        }
    }
}

impl WalletTx {
    /// A field-by-field copy.
    pub fn duplicate(&self) -> (t: WalletTx)
        ensures
            t@ == self@,
    {
        WalletTx {
            tx_id: self.tx_id,
            submitter: self.submitter,
            target: self.target,
            payload: copy_bytes(&self.payload),
            confirmations: copy_addresses(&self.confirmations),
            rejections: copy_addresses(&self.rejections),
            status: self.status,
            kind: self.kind,
        }
    }
}

/// The mathematical content of the wallet.
pub struct WalletView {
    pub owners: Seq<Address>,
    /// Zero until the wallet is initialized.
    pub threshold: u32,
    pub txs: Seq<WalletTxView>,
    /// Custody balance per token.
    pub balances: Seq<(Address, i128)>,
}

/// No address occurs twice.
pub open spec fn distinct(s: Seq<Address>) -> bool {
    forall|i: int, j: int| 0 <= i < j < s.len() ==> s[i] != s[j]
}

/// Every element of `a` occurs in `b`.
pub open spec fn within(a: Seq<Address>, b: Seq<Address>) -> bool {
    forall|i: int| 0 <= i < a.len() ==> b.contains(#[trigger] a[i])
}

/// The signalling rules of one transaction.
pub open spec fn tx_wf(t: WalletTxView, owners: Seq<Address>, threshold: u32) -> bool {
    &&& distinct(t.confirmations)
    &&& distinct(t.rejections)
    &&& within(t.confirmations, owners)
    &&& within(t.rejections, owners)
    &&& forall|a: Address| !(t.confirmations.contains(a) && t.rejections.contains(a))
    &&& t.status == TxStatus::Pending ==> t.rejections.len() < threshold
    &&& t.status == TxStatus::Rejected ==> t.rejections.len() >= threshold
    &&& t.status == TxStatus::Executed ==> t.confirmations.len() >= threshold
        && t.rejections.len() == 0
    &&& t.kind matches TxKind::Withdrawal(w) ==> w.amount > 0
}

/// The wallet invariant.
pub open spec fn wallet_wf(w: WalletView) -> bool {
    &&& w.threshold == 0 ==> w.owners.len() == 0 && w.txs.len() == 0 && w.balances.len() == 0
    &&& w.threshold > 0 ==> w.threshold <= w.owners.len() && distinct(w.owners)
    &&& w.owners.len() <= u32::MAX
    &&& forall|i: int|
        0 <= i < w.txs.len() ==> (#[trigger] w.txs[i]).tx_id == i + 1 && tx_wf(
            w.txs[i],
            w.owners,
            w.threshold,
        )
    &&& forall|a: Address| #[trigger] lookup(w.balances, a) matches Some(b) ==> b >= 0
}

/// What every operation keeps: no transaction disappears, and an executed
/// or rejected transaction never changes again.
pub open spec fn settled_unchanged(before: Seq<WalletTxView>, after: Seq<WalletTxView>) -> bool {
    &&& before.len() <= after.len()
    &&& forall|i: int|
        0 <= i < before.len() && (#[trigger] before[i]).status != TxStatus::Pending ==> after[i]
            == before[i]
}

/// The transaction with id `id`, if any.
pub open spec fn tx_at(w: WalletView, id: u64) -> Option<WalletTxView> {
    if 1 <= id <= w.txs.len() {
        Some(w.txs[id - 1])
    } else {
        None
    }
}

/// Whether `execute` succeeds on transaction `id` of `w`: it is pending,
/// has reached the threshold of confirmations without any rejection, and,
/// for a withdrawal, the custody balance covers the amount.
pub open spec fn can_execute(w: WalletView, id: u64) -> bool {
    match tx_at(w, id) {
        None => false,
        Some(t) => {
            &&& t.status == TxStatus::Pending
            &&& t.confirmations.len() >= w.threshold
            &&& t.rejections.len() == 0
            &&& t.kind matches TxKind::Withdrawal(wd) ==> balance_of(w, wd.token) >= wd.amount
        },
    }
}

/// A transaction that has left `Pending` (executed or rejected) can never
/// be executed: each transaction executes at most once.
pub proof fn lemma_settled_tx_never_executes(w: WalletView, id: u64)
    requires
        tx_at(w, id) matches Some(t) && t.status != TxStatus::Pending,
    ensures
        !can_execute(w, id),
{
}

/// Under the wallet invariant, an executable transaction carries at least
/// `threshold` confirmations from distinct owners.
pub proof fn lemma_execute_needs_distinct_owners(w: WalletView, id: u64)
    requires
        wallet_wf(w),
        can_execute(w, id),
    ensures
        tx_at(w, id) matches Some(t) && distinct(t.confirmations) && within(
            t.confirmations,
            w.owners,
        ) && t.confirmations.len() >= w.threshold,
{
}

/// A transaction that is no longer pending stays exactly as it is through
/// any run of states that each keep settled transactions unchanged.
proof fn lemma_settled_stays(states: Seq<WalletView>, from: int, to: int, id: u64)
    requires
        0 <= from <= to < states.len(),
        forall|k: int|
            0 <= k < states.len() - 1 ==> settled_unchanged(
                #[trigger] states[k].txs,
                states[k + 1].txs,
            ),
        tx_at(states[from], id) matches Some(t) && t.status != TxStatus::Pending,
    ensures
        tx_at(states[to], id) == tx_at(states[from], id),
    decreases to - from,
{
    if from < to {
        lemma_settled_stays(states, from, to - 1, id);
        let k = to - 1;
        assert(settled_unchanged(states[k].txs, states[k + 1].txs));
        assert(states[k].txs[id - 1].status != TxStatus::Pending);
    }
}

/// Each transaction is dispatched at most once. Take any run of wallet
/// states in which every step keeps settled transactions unchanged (as
/// every operation of the wallet does) and mark the steps at which
/// `execute(id)` succeeded: such a step starts from a state where the
/// transaction can execute and ends with it executed. Then no two steps
/// are marked, so the target's invocation or the withdrawal's transfer,
/// which only a successful `execute` asks for, happens at most once.
pub proof fn lemma_executes_at_most_once(states: Seq<WalletView>, executed: Seq<bool>, id: u64)
    requires
        states.len() == executed.len() + 1,
        forall|k: int|
            0 <= k < executed.len() ==> settled_unchanged(
                #[trigger] states[k].txs,
                states[k + 1].txs,
            ),
        forall|k: int|
            0 <= k < executed.len() && #[trigger] executed[k] ==> can_execute(states[k], id) && (
            tx_at(states[k + 1], id) matches Some(t) && t.status == TxStatus::Executed),
    ensures
        forall|k1: int, k2: int|
            0 <= k1 < k2 < executed.len() && #[trigger] executed[k1] ==> !#[trigger] executed[k2],
{
    assert forall|k1: int, k2: int|
        0 <= k1 < k2 < executed.len() && #[trigger] executed[k1] implies !#[trigger] executed[k2] by {
        assert forall|k: int| 0 <= k < states.len() - 1 implies settled_unchanged(
            #[trigger] states[k].txs,
            states[k + 1].txs,
        ) by {
            assert(k < executed.len());
        }
        assert(executed[k1] ==> can_execute(states[k1], id));
        lemma_settled_stays(states, k1 + 1, k2, id);
        lemma_settled_tx_never_executes(states[k2], id);
    }
}

/// Whether `confirm(id, signer)` succeeds on `w`: the transaction is
/// pending, the signer is an owner and has neither confirmed nor rejected it.
pub open spec fn confirm_ok(w: WalletView, id: u64, signer: Address) -> bool {
    match tx_at(w, id) {
        None => false,
        Some(t) => {
            &&& t.status == TxStatus::Pending
            &&& w.owners.contains(signer)
            &&& !t.confirmations.contains(signer)
            &&& !t.rejections.contains(signer)
        },
    }
}

/// The wallet after `confirm(id, signer)`: the signer is appended to the
/// confirmations when the call succeeds, and nothing changes otherwise.
pub open spec fn confirm_next(w: WalletView, id: u64, signer: Address) -> WalletView {
    if confirm_ok(w, id, signer) {
        let t = w.txs[id - 1];
        with_tx(w, id, WalletTxView { confirmations: t.confirmations.push(signer), ..t })
    } else {
        w
    }
}

/// The wallet after `confirm(id, s)` for each signer `s` of `signers`, in order.
pub open spec fn confirm_all(w: WalletView, id: u64, signers: Seq<Address>) -> WalletView
    decreases signers.len(),
{
    if signers.len() == 0 {
        w
    } else {
        confirm_next(confirm_all(w, id, signers.drop_last()), id, signers.last())
    }
}

/// The signers of `signers` that confirm for the first time, in order:
/// those that had neither confirmed nor rejected `t` and occur nowhere
/// earlier in the run.
pub open spec fn first_confirmers(t: WalletTxView, signers: Seq<Address>) -> Seq<Address>
    decreases signers.len(),
{
    if signers.len() == 0 {
        Seq::empty()
    } else {
        let earlier = first_confirmers(t, signers.drop_last());
        let s = signers.last();
        if t.confirmations.contains(s) || t.rejections.contains(s) || earlier.contains(s) {
            earlier
        } else {
            earlier.push(s)
        }
    }
}

proof fn lemma_first_confirmers_facts(t: WalletTxView, signers: Seq<Address>)
    ensures
        distinct(first_confirmers(t, signers)),
        forall|a: Address| #[trigger]
            first_confirmers(t, signers).contains(a) <==> (signers.contains(a)
                && !t.confirmations.contains(a) && !t.rejections.contains(a)),
    decreases signers.len(),
{
    if signers.len() > 0 {
        let d = signers.drop_last();
        lemma_first_confirmers_facts(t, d);
        let e = first_confirmers(t, d);
        let s = signers.last();
        assert forall|a: Address| signers.contains(a) <==> (d.contains(a) || a == s) by {
            if signers.contains(a) {
                let k = choose|k: int| 0 <= k < signers.len() && signers[k] == a;
                if k < d.len() {
                    assert(d[k] == a);
                }
            }
            if d.contains(a) {
                let k = choose|k: int| 0 <= k < d.len() && d[k] == a;
                assert(signers[k] == a);
            }
            if a == s {
                assert(signers[signers.len() - 1] == a);
            }
        }
        if !(t.confirmations.contains(s) || t.rejections.contains(s) || e.contains(s)) {
            let f = e.push(s);
            assert forall|i: int, j: int| 0 <= i < j < f.len() implies f[i] != f[j] by {
                if j == e.len() {
                    assert(e.contains(e[i]));
                }
            }
            assert forall|a: Address| #[trigger] f.contains(a) <==> (e.contains(a) || a == s) by {
                if f.contains(a) {
                    let k = choose|k: int| 0 <= k < f.len() && f[k] == a;
                    if k < e.len() {
                        assert(e[k] == a);
                    }
                }
                if e.contains(a) {
                    let k = choose|k: int| 0 <= k < e.len() && e[k] == a;
                    assert(f[k] == a);
                }
                if a == s {
                    assert(f[e.len() as int] == a);
                }
            }
        }
    }
}

/// Confirmations by owners count distinct owners exactly. On a pending
/// transaction of a valid wallet, run `confirm(id, s)` for each owner `s`
/// of `signers` in order. Each call succeeds exactly when its signer had
/// neither confirmed nor rejected the transaction before the run and does
/// not occur earlier in the run; afterwards the confirmations are those
/// from before followed by the first-time confirmers in order, with no
/// address twice, and the transaction is still pending.
pub proof fn lemma_confirmations_are_distinct_owners(
    w: WalletView,
    id: u64,
    signers: Seq<Address>,
)
    requires
        wallet_wf(w),
        tx_at(w, id) matches Some(t) && t.status == TxStatus::Pending,
        forall|k: int| 0 <= k < signers.len() ==> w.owners.contains(#[trigger] signers[k]),
    ensures
        ({
            let t = w.txs[id - 1];
            let after = confirm_all(w, id, signers);
            &&& tx_at(after, id) == Some(
                WalletTxView {
                    confirmations: t.confirmations + first_confirmers(t, signers),
                    ..t
                },
            )
            &&& after.owners == w.owners
            &&& after.threshold == w.threshold
            &&& distinct(t.confirmations + first_confirmers(t, signers))
            &&& forall|k: int|
                0 <= k < signers.len() ==> (confirm_ok(
                    confirm_all(w, id, signers.take(k)),
                    id,
                    #[trigger] signers[k],
                ) <==> !t.confirmations.contains(signers[k]) && !t.rejections.contains(signers[k])
                    && !signers.take(k).contains(signers[k]))
        }),
    decreases signers.len(),
{
    let t = w.txs[id - 1];
    assert(tx_wf(t, w.owners, w.threshold));
    lemma_first_confirmers_facts(t, signers);
    if signers.len() > 0 {
        let d = signers.drop_last();
        lemma_confirmations_are_distinct_owners(w, id, d);
        let b = confirm_all(w, id, d);
        let e = first_confirmers(t, d);
        lemma_first_confirmers_facts(t, d);
        let s = signers.last();
        let bt = b.txs[id - 1];
        assert(bt.confirmations == t.confirmations + e);
        assert(w.owners.contains(signers[signers.len() - 1]));
        assert forall|a: Address| #[trigger] (t.confirmations + e).contains(a) <==> (
        t.confirmations.contains(a) || e.contains(a)) by {
            let c = t.confirmations + e;
            if c.contains(a) {
                let k = choose|k: int| 0 <= k < c.len() && c[k] == a;
                if k >= t.confirmations.len() {
                    assert(e[k - t.confirmations.len()] == a);
                }
            }
            if t.confirmations.contains(a) {
                let k = choose|k: int| 0 <= k < t.confirmations.len() && t.confirmations[k] == a;
                assert(c[k] == a);
            }
            if e.contains(a) {
                let k = choose|k: int| 0 <= k < e.len() && e[k] == a;
                assert(c[k + t.confirmations.len()] == a);
            }
        }
        let f = first_confirmers(t, signers);
        if confirm_ok(b, id, s) {
            assert(t.confirmations + f =~= (t.confirmations + e).push(s));
        } else {
            assert(f == e);
        }
        let c = t.confirmations + f;
        assert forall|i: int, j: int| 0 <= i < j < c.len() implies c[i] != c[j] by {
            let n = t.confirmations.len() as int;
            if j >= n && i < n {
                assert(f.contains(c[j]));
                assert(t.confirmations.contains(c[i]));
            } else if j >= n {
                assert(c[i] == f[i - n] && c[j] == f[j - n]);
            }
        }
        assert forall|k: int|
            0 <= k < signers.len() implies (confirm_ok(
            confirm_all(w, id, signers.take(k)),
            id,
            #[trigger] signers[k],
        ) <==> !t.confirmations.contains(signers[k]) && !t.rejections.contains(signers[k])
            && !signers.take(k).contains(signers[k])) by {
            if k < d.len() {
                assert(d.take(k) =~= signers.take(k));
                assert(d[k] == signers[k]);
            } else {
                assert(signers.take(k) =~= d);
            }
        }
    }
}

/// The custody balance of `token`.
pub open spec fn balance_of(w: WalletView, token: Address) -> i128 {
    match lookup(w.balances, token) {
        Some(b) => b,
        None => 0,
    }
}

/// The wallet with transaction `id` replaced by `t`.
pub open spec fn with_tx(w: WalletView, id: u64, t: WalletTxView) -> WalletView {
    WalletView { txs: w.txs.update(id - 1, t), ..w }
}

/// The transactions of `txs` whose status is `status`, in order.
pub open spec fn with_status(txs: Seq<WalletTxView>, status: TxStatus) -> Seq<WalletTxView>
    decreases txs.len(),
{
    if txs.len() == 0 {
        Seq::empty()
    } else if txs.last().status == status {
        with_status(txs.drop_last(), status).push(txs.last())
    } else {
        with_status(txs.drop_last(), status)
    }
}

/// `lo` clamped into `0..=n` and `lo + len` clamped likewise: the bounds of
/// an offset/limit window over `n` items.
pub open spec fn window(n: int, offset: int, limit: int) -> (int, int) {
    (if offset < n { offset } else { n }, if offset + limit < n { offset + limit } else { n })
}

/// The views of a vector of transactions.
pub open spec fn tx_views(v: Seq<WalletTx>) -> Seq<WalletTxView> {
    Seq::new(v.len(), |i: int| v[i]@)
}

/// Replacing one transaction by one that keeps its id and the signalling
/// rules keeps the wallet invariant.
pub proof fn lemma_with_tx_wf(w: WalletView, id: u64, t: WalletTxView)
    requires
        wallet_wf(w),
        tx_at(w, id) is Some,
        t.tx_id == id,
        tx_wf(t, w.owners, w.threshold),
    ensures
        wallet_wf(with_tx(w, id, t)),
{
    let nw = with_tx(w, id, t);
    assert forall|i: int| 0 <= i < nw.txs.len() implies (#[trigger] nw.txs[i]).tx_id == i + 1
        && tx_wf(nw.txs[i], nw.owners, nw.threshold) by {
        if i != id - 1 {
            assert(nw.txs[i] == w.txs[i]);
        }
    }
}

/// Whether no address occurs twice in `v`.
fn is_distinct(v: &Vec<Address>) -> (b: bool)
    ensures
        b == distinct(v@),
{
    let mut i: usize = 0;
    while i < v.len()
        invariant
            i <= v@.len(),
            forall|a: int, b: int| 0 <= a < b < i ==> v@[a] != v@[b],
        decreases v@.len() - i,
    {
        let mut j: usize = 0;
        while j < i
            invariant
                j <= i < v@.len(),
                forall|k: int| 0 <= k < j ==> v@[k] != v@[i as int],
            decreases i - j,
        {
            if v[j] == v[i] {
                return false;
            }
            j += 1;
        }
        i += 1;
    }
    true
}

/// Whether every address of `a` occurs in `b`.
fn all_within(a: &Vec<Address>, b: &Vec<Address>) -> (r: bool)
    ensures
        r == within(a@, b@),
{
    let mut i: usize = 0;
    while i < a.len()
        invariant
            i <= a@.len(),
            forall|j: int| 0 <= j < i ==> b@.contains(#[trigger] a@[j]),
        decreases a@.len() - i,
    {
        if !contains_address(b, &a[i]) {
            return false;
        }
        i += 1;
    }
    true
}

/// Whether no address occurs in both `a` and `b`.
fn disjoint(a: &Vec<Address>, b: &Vec<Address>) -> (r: bool)
    ensures
        r == forall|x: Address| !(a@.contains(x) && b@.contains(x)),
{
    let mut i: usize = 0;
    while i < a.len()
        invariant
            i <= a@.len(),
            forall|j: int| 0 <= j < i ==> !b@.contains(#[trigger] a@[j]),
        decreases a@.len() - i,
    {
        if contains_address(b, &a[i]) {
            return false;
        }
        i += 1;
    }
    proof {
        assert forall|x: Address| !(a@.contains(x) && b@.contains(x)) by {
            if a@.contains(x) {
                let j = choose|j: int| 0 <= j < a@.len() && a@[j] == x;
                assert(!b@.contains(a@[j]));
            }
        }
    }
    true
}

/// Whether `t` follows the signalling rules of a wallet with `owners` and
/// `threshold`.
fn tx_follows_rules(t: &WalletTx, owners: &Vec<Address>, threshold: u32) -> (b: bool)
    ensures
        b == tx_wf(t@, owners@, threshold),
{
    let conf = &t.confirmations;
    let rej = &t.rejections;
    if !is_distinct(conf) || !is_distinct(rej) || !all_within(conf, owners) || !all_within(
        rej,
        owners,
    ) || !disjoint(conf, rej) {
        return false;
    }
    let n_rej = rej.len() as u64;
    let n_conf = conf.len() as u64;
    let status_ok = match t.status {
        TxStatus::Pending => n_rej < threshold as u64,
        TxStatus::Rejected => n_rej >= threshold as u64,
        TxStatus::Executed => n_conf >= threshold as u64 && n_rej == 0,
    };
    let kind_ok = match t.kind {
        TxKind::Withdrawal(w) => w.amount > 0,
        TxKind::Opaque => true,
    };
    status_ok && kind_ok
}

/// The state of the multi-signature wallet.
pub struct MultiSigWallet {
    owners: Vec<Address>,
    threshold: u32,
    txs: Vec<WalletTx>,
    balances: Vec<(Address, i128)>,
}

impl View for MultiSigWallet {
    type V = WalletView;

    closed spec fn view(&self) -> WalletView {
        WalletView {
            owners: self.owners@,
            threshold: self.threshold,
            txs: tx_views(self.txs@),
            balances: self.balances@,
        }
    }
}

impl MultiSigWallet {
    /// The wallet invariant.
    pub open spec fn wf(&self) -> bool {
        wallet_wf(self@)
    }

    /// An uninitialized wallet.
    pub fn new() -> (w: Self)
        ensures
            w.wf(),
            w@.owners.len() == 0,
            w@.threshold == 0,
            w@.txs.len() == 0,
            w@.balances.len() == 0,
    {
        let w = MultiSigWallet {
            owners: Vec::new(),
            threshold: 0,
            txs: Vec::new(),
            balances: Vec::new(),
        };
        assert(w@.txs =~= Seq::<WalletTxView>::empty());
        w
    }

    /// Rebuild a wallet from its stored parts, refusing parts that break
    /// the wallet invariant.
    pub fn from_parts(
        owners: Vec<Address>,
        threshold: u32,
        txs: Vec<WalletTx>,
        balances: Vec<(Address, i128)>,
    ) -> (r: Option<Self>)
        ensures
            ({
                let v = WalletView {
                    owners: owners@,
                    threshold,
                    txs: tx_views(txs@),
                    balances: balances@,
                };
                &&& r matches Some(w) ==> w.wf() && w@ == v
                &&& r is None <==> !wallet_wf(v)
            }),
    {
        let ghost v = WalletView {
            owners: owners@,
            threshold,
            txs: tx_views(txs@),
            balances: balances@,
        };
        if threshold == 0 {
            if owners.len() == 0 && txs.len() == 0 && balances.len() == 0 {
                let w = MultiSigWallet { owners, threshold, txs, balances };
                assert(w@.txs =~= Seq::<WalletTxView>::empty());
                return Some(w);
            }
            return None;
        }
        if owners.len() as u64 > u32::MAX as u64 || threshold as u64 > owners.len() as u64 {
            return None;
        }
        if !is_distinct(&owners) {
            return None;
        }
        let mut i: usize = 0;
        while i < txs.len()
            invariant
                i <= txs@.len(),
                v.txs == tx_views(txs@),
                v.owners == owners@,
                v.threshold == threshold,
                forall|j: int|
                    0 <= j < i ==> (#[trigger] v.txs[j]).tx_id == j + 1 && tx_wf(
                        v.txs[j],
                        v.owners,
                        v.threshold,
                    ),
            decreases txs@.len() - i,
        {
            assert(v.txs[i as int] == txs@[i as int]@);
            if txs[i].tx_id as u128 != i as u128 + 1 || !tx_follows_rules(
                &txs[i],
                &owners,
                threshold,
            ) {
                return None;
            }
            i += 1;
        }
        let mut k: usize = 0;
        while k < balances.len()
            invariant
                k <= balances@.len(),
                forall|j: int|
                    0 <= j < k ==> (lookup(balances@, #[trigger] balances@[j].0) matches Some(b)
                        ==> b >= 0),
            decreases balances@.len() - k,
        {
            let key = balances[k].0;
            match get_value(&balances, &key) {
                Some(b) => {
                    if b < 0 {
                        return None;
                    }
                },
                None => {},
            }
            k += 1;
        }
        proof {
            assert forall|a: Address| #[trigger]
                lookup(v.balances, a) is Some implies lookup(v.balances, a)->Some_0 >= 0 by {
                lemma_lookup_some(balances@, a);
                let j = choose|j: int|
                    0 <= j < balances@.len() && balances@[j].0 == a && balances@[j].1 == lookup(
                        balances@,
                        a,
                    )->Some_0;
                assert(lookup(balances@, balances@[j].0) == lookup(balances@, a));
            }
        }
        let w = MultiSigWallet { owners, threshold, txs, balances };
        Some(w)
    }

    /// The stored parts: owners, threshold, transactions and balances.
    pub fn parts(&self) -> (r: (&Vec<Address>, u32, &Vec<WalletTx>, &Vec<(Address, i128)>))
        ensures
            r.0@ == self@.owners,
            r.1 == self@.threshold,
            tx_views(r.2@) == self@.txs,
            r.3@ == self@.balances,
    {
        (&self.owners, self.threshold, &self.txs, &self.balances)
    }

    fn index_of(&self, tx_id: u64) -> (r: Option<usize>)
        ensures
            tx_at(self@, tx_id) is None <==> r is None,
            r matches Some(i) ==> i as int == tx_id - 1 && i < self@.txs.len() && self@.txs[i
                as int] == self.txs@[i as int]@,
    {
        if tx_id == 0 || tx_id as u128 > self.txs.len() as u128 {
            None
        } else {
            Some((tx_id - 1) as usize)
        }
    }

    fn is_owner_impl(&self, a: &Address) -> (b: bool)
        ensures
            b == self@.owners.contains(*a),
    {
        contains_address(&self.owners, a)
    }

    /// Configure the owner set and the threshold, once. Requires a
    /// non-empty owner set without duplicates and
    /// `0 < threshold <= owners.len()`.
    pub fn initialize(&mut self, owners: Vec<Address>, threshold: u32) -> (r: Result<
        (),
        ForgeError,
    >)
        requires
            old(self).wf(),
            owners@.len() <= u32::MAX,
        ensures
            final(self).wf(),
            settled_unchanged(old(self)@.txs, final(self)@.txs),
            r == if old(self)@.threshold != 0 {
                Err(ForgeError::AlreadyInitialized)
            } else if owners@.len() == 0 || threshold == 0 || threshold > owners@.len()
                || !distinct(owners@) {
                Err(ForgeError::InvalidInput)
            } else {
                Ok::<(), ForgeError>(())
            },
            r is Ok ==> final(self)@ == (WalletView { owners: owners@, threshold, ..old(self)@ }),
            r is Err ==> final(self)@ == old(self)@,
    {
        if self.threshold != 0 {
            return Err(ForgeError::AlreadyInitialized);
        }
        if owners.len() == 0 {
            return Err(ForgeError::InvalidInput);
        }
        if threshold == 0 || threshold as u64 > owners.len() as u64 {
            return Err(ForgeError::InvalidInput);
        }
        let mut i: usize = 0;
        while i < owners.len()
            invariant
                i <= owners@.len(),
                distinct(owners@.subrange(0, i as int)),
                self@ == old(self)@,
                old(self).wf(),
                old(self)@.threshold == 0,
                0 < threshold <= owners@.len(),
            decreases owners@.len() - i,
        {
            let mut j: usize = 0;
            while j < i
                invariant
                    j <= i < owners@.len(),
                    self@ == old(self)@,
                    old(self).wf(),
                    old(self)@.threshold == 0,
                    0 < threshold <= owners@.len(),
                    forall|k: int| 0 <= k < j ==> owners@[k] != owners@[i as int],
                decreases i - j,
            {
                if owners[j] == owners[i] {
                    proof {
                        assert(!distinct(owners@) ) by {
                            assert(owners@[j as int] == owners@[i as int]);
                        }
                    }
                    return Err(ForgeError::InvalidInput);
                }
                j += 1;
            }
            proof {
                let s = owners@.subrange(0, i + 1);
                assert forall|a: int, b: int| 0 <= a < b < s.len() implies s[a] != s[b] by {
                    if b < i {
                        assert(owners@.subrange(0, i as int)[a] == s[a]);
                        assert(owners@.subrange(0, i as int)[b] == s[b]);
                    }
                }
            }
            i += 1;
        }
        proof {
            assert(owners@.subrange(0, owners@.len() as int) =~= owners@);
        }
        assert(self.txs@.len() == tx_views(self.txs@).len());
        self.owners = owners;
        self.threshold = threshold;
        assert(self@.txs.len() == 0);
        assert(self@.balances.len() == 0);
        Ok(())
    }

    /// Submit an opaque-payload transaction for approval. The submitter
    /// must be an owner and authorizes; returns the new transaction id.
    pub fn submit(
        &mut self,
        submitter: Address,
        target: Address,
        payload: Vec<u8>,
    ) -> (r: Outcome<u64>)
        requires
            old(self).wf(),
        ensures
            final(self).wf(),
            settled_unchanged(old(self)@.txs, final(self)@.txs),
            if old(self)@.threshold == 0 {
                fails_with(r, ForgeError::NotInitialized, seq![]) && final(self)@ == old(self)@
            } else if !old(self)@.owners.contains(submitter) {
                fails_with(r, ForgeError::Unauthorized, seq![]) && final(self)@ == old(self)@
            } else if old(self)@.txs.len() == u64::MAX {
                fails_with(r, ForgeError::ArithmeticOverflow, seq![submitter])
                    && final(self)@ == old(self)@
            } else {
                let id = (old(self)@.txs.len() + 1) as u64;
                &&& r.result == Ok::<u64, ForgeError>(id)
                &&& r.auths@ == seq![submitter]
                &&& r.calls@ == Seq::<HostCall>::empty()
                &&& final(self)@ == (WalletView {
                    txs: old(self)@.txs.push(
                        WalletTxView {
                            tx_id: id,
                            submitter,
                            target,
                            payload: payload@,
                            confirmations: Seq::empty(),
                            rejections: Seq::empty(),
                            status: TxStatus::Pending,
                            kind: TxKind::Opaque,
                        },
                    ),
                    ..old(self)@
                })
            },
    {
        self.push_tx(submitter, target, payload, TxKind::Opaque)
    }

    fn push_tx(
        &mut self,
        submitter: Address,
        target: Address,
        payload: Vec<u8>,
        kind: TxKind,
    ) -> (r: Outcome<u64>)
        requires
            old(self).wf(),
            kind matches TxKind::Withdrawal(w) ==> w.amount > 0,
        ensures
            final(self).wf(),
            if old(self)@.threshold == 0 {
                fails_with(r, ForgeError::NotInitialized, seq![]) && final(self)@ == old(self)@
            } else if !old(self)@.owners.contains(submitter) {
                fails_with(r, ForgeError::Unauthorized, seq![]) && final(self)@ == old(self)@
            } else if old(self)@.txs.len() == u64::MAX {
                fails_with(r, ForgeError::ArithmeticOverflow, seq![submitter])
                    && final(self)@ == old(self)@
            } else {
                let id = (old(self)@.txs.len() + 1) as u64;
                &&& r.result == Ok::<u64, ForgeError>(id)
                &&& r.auths@ == seq![submitter]
                &&& r.calls@ == Seq::<HostCall>::empty()
                &&& final(self)@ == (WalletView {
                    txs: old(self)@.txs.push(
                        WalletTxView {
                            tx_id: id,
                            submitter,
                            target,
                            payload: payload@,
                            confirmations: Seq::empty(),
                            rejections: Seq::empty(),
                            status: TxStatus::Pending,
                            kind,
                        },
                    ),
                    ..old(self)@
                })
            },
    {
        if self.threshold == 0 {
            return Outcome::fail(ForgeError::NotInitialized, Vec::new());
        }
        if !self.is_owner_impl(&submitter) {
            return Outcome::fail(ForgeError::Unauthorized, Vec::new());
        }
        let count = self.txs.len() as u64;
        if count == u64::MAX {
            return Outcome::fail(ForgeError::ArithmeticOverflow, one_address(submitter));
        }
        let id = count + 1;
        let tx = WalletTx {
            tx_id: id,
            submitter,
            target,
            payload,
            confirmations: Vec::new(),
            rejections: Vec::new(),
            status: TxStatus::Pending,
            kind,
        };
        let ghost old_txs = self.txs@;
        self.txs.push(tx);
        proof {
            assert(tx_views(self.txs@) =~= tx_views(old_txs).push(tx@));
        }
        Outcome::ok(id, one_address(submitter), Vec::new())
    }

    /// Record `signer`'s confirmation of a pending transaction. The signer
    /// must be an owner, authorizes, and may not have signalled before.
    pub fn confirm(&mut self, tx_id: u64, signer: Address) -> (r: Outcome<()>)
        requires
            old(self).wf(),
        ensures
            final(self).wf(),
            settled_unchanged(old(self)@.txs, final(self)@.txs),
            match tx_at(old(self)@, tx_id) {
                None => fails_with(r, ForgeError::NotFound, seq![]) && final(self)@ == old(self)@,
                Some(t) => if t.status != TxStatus::Pending {
                    fails_with(r, ForgeError::InvalidInput, seq![]) && final(self)@ == old(self)@
                } else if !old(self)@.owners.contains(signer) {
                    fails_with(r, ForgeError::Unauthorized, seq![]) && final(self)@ == old(self)@
                } else if t.confirmations.contains(signer) || t.rejections.contains(signer) {
                    fails_with(r, ForgeError::InvalidInput, seq![signer])
                        && final(self)@ == old(self)@
                } else {
                    &&& r.result == Ok::<(), ForgeError>(())
                    &&& r.auths@ == seq![signer]
                    &&& r.calls@ == Seq::<HostCall>::empty()
                    &&& final(self)@ == with_tx(
                        old(self)@,
                        tx_id,
                        WalletTxView { confirmations: t.confirmations.push(signer), ..t },
                    )
                },
            },
            r.result is Ok <==> confirm_ok(old(self)@, tx_id, signer),
            final(self)@ == confirm_next(old(self)@, tx_id, signer),
    {
        let idx = match self.index_of(tx_id) {
            None => return Outcome::fail(ForgeError::NotFound, Vec::new()),
            Some(i) => i,
        };
        if self.txs[idx].status != TxStatus::Pending {
            return Outcome::fail(ForgeError::InvalidInput, Vec::new());
        }
        if !self.is_owner_impl(&signer) {
            return Outcome::fail(ForgeError::Unauthorized, Vec::new());
        }
        if contains_address(&self.txs[idx].confirmations, &signer) || contains_address(
            &self.txs[idx].rejections,
            &signer,
        ) {
            return Outcome::fail(ForgeError::InvalidInput, one_address(signer));
        }
        let ghost old_txs = self.txs@;
        let ghost t = self.txs@[idx as int]@;
        let mut tx = self.txs[idx].duplicate();
        tx.confirmations.push(signer);
        self.txs.set(idx, tx);
        proof {
            assert(tx_views(self.txs@) =~= tx_views(old_txs).update(
                idx as int,
                WalletTxView { confirmations: t.confirmations.push(signer), ..t },
            ));
            let nt = WalletTxView { confirmations: t.confirmations.push(signer), ..t };
            assert(tx_wf(old(self)@.txs[idx as int], self@.owners, self@.threshold));
            assert(self@ == with_tx(old(self)@, tx_id, nt));
            assert forall|a: int, b: int|
                0 <= a < b < nt.confirmations.len() implies nt.confirmations[a]
                != nt.confirmations[b] by {
                if b == t.confirmations.len() {
                    assert(t.confirmations.contains(t.confirmations[a]));
                }
            }
            assert forall|a: Address|
                !(nt.confirmations.contains(a) && nt.rejections.contains(a)) by {
                if nt.confirmations.contains(a) && a != signer {
                    let k = choose|k: int| 0 <= k < nt.confirmations.len() && nt.confirmations[k] == a;
                    assert(t.confirmations[k] == a);
                }
            }
            assert(within(nt.confirmations, self@.owners)) by {
                assert forall|a: int| 0 <= a < nt.confirmations.len() implies self@.owners.contains(
                    #[trigger] nt.confirmations[a],
                ) by {
                    if a < t.confirmations.len() {
                        assert(nt.confirmations[a] == t.confirmations[a]);
                    }
                }
            }
            lemma_with_tx_wf(old(self)@, tx_id, nt);
        }
        Outcome::ok((), one_address(signer), Vec::new())
    }

    /// Record `signer`'s objection to a pending transaction. Once the
    /// objections reach the threshold the transaction is `Rejected`.
    pub fn reject(&mut self, tx_id: u64, signer: Address) -> (r: Outcome<()>)
        requires
            old(self).wf(),
        ensures
            final(self).wf(),
            settled_unchanged(old(self)@.txs, final(self)@.txs),
            match tx_at(old(self)@, tx_id) {
                None => fails_with(r, ForgeError::NotFound, seq![]) && final(self)@ == old(self)@,
                Some(t) => if t.status != TxStatus::Pending {
                    fails_with(r, ForgeError::InvalidInput, seq![]) && final(self)@ == old(self)@
                } else if !old(self)@.owners.contains(signer) {
                    fails_with(r, ForgeError::Unauthorized, seq![]) && final(self)@ == old(self)@
                } else if t.rejections.contains(signer) || t.confirmations.contains(signer) {
                    fails_with(r, ForgeError::InvalidInput, seq![signer])
                        && final(self)@ == old(self)@
                } else {
                    let rejections = t.rejections.push(signer);
                    &&& r.result == Ok::<(), ForgeError>(())
                    &&& r.auths@ == seq![signer]
                    &&& r.calls@ == Seq::<HostCall>::empty()
                    &&& final(self)@ == with_tx(
                        old(self)@,
                        tx_id,
                        WalletTxView {
                            rejections,
                            status: if rejections.len() >= old(self)@.threshold {
                                TxStatus::Rejected
                            } else {
                                TxStatus::Pending
                            },
                            ..t
                        },
                    )
                },
            },
    {
        let idx = match self.index_of(tx_id) {
            None => return Outcome::fail(ForgeError::NotFound, Vec::new()),
            Some(i) => i,
        };
        if self.txs[idx].status != TxStatus::Pending {
            return Outcome::fail(ForgeError::InvalidInput, Vec::new());
        }
        if !self.is_owner_impl(&signer) {
            return Outcome::fail(ForgeError::Unauthorized, Vec::new());
        }
        if contains_address(&self.txs[idx].rejections, &signer) || contains_address(
            &self.txs[idx].confirmations,
            &signer,
        ) {
            return Outcome::fail(ForgeError::InvalidInput, one_address(signer));
        }
        let ghost old_txs = self.txs@;
        let ghost t = self.txs@[idx as int]@;
        let mut tx = self.txs[idx].duplicate();
        tx.rejections.push(signer);
        if tx.rejections.len() as u64 >= self.threshold as u64 {
            tx.status = TxStatus::Rejected;
        }
        let ghost nt = tx@;
        self.txs.set(idx, tx);
        proof {
            assert(tx_views(self.txs@) =~= tx_views(old_txs).update(idx as int, nt));
            assert(self@ == with_tx(old(self)@, tx_id, nt));
            assert(tx_wf(old(self)@.txs[idx as int], self@.owners, self@.threshold));
            assert forall|a: int, b: int|
                0 <= a < b < nt.rejections.len() implies nt.rejections[a] != nt.rejections[b] by {
                if b == t.rejections.len() {
                    assert(t.rejections.contains(t.rejections[a]));
                }
            }
            assert forall|a: Address| !(nt.confirmations.contains(a) && nt.rejections.contains(a)) by {
                if nt.rejections.contains(a) && a != signer {
                    let k = choose|k: int| 0 <= k < nt.rejections.len() && nt.rejections[k] == a;
                    assert(t.rejections[k] == a);
                }
            }
            assert(within(nt.rejections, self@.owners)) by {
                assert forall|a: int| 0 <= a < nt.rejections.len() implies self@.owners.contains(
                    #[trigger] nt.rejections[a],
                ) by {
                    if a < t.rejections.len() {
                        assert(nt.rejections[a] == t.rejections[a]);
                    }
                }
            }
            lemma_with_tx_wf(old(self)@, tx_id, nt);
        }
        Outcome::ok((), one_address(signer), Vec::new())
    }

    /// Execute a pending transaction whose confirmations reach the
    /// threshold and that carries no objection. A withdrawal first checks
    /// custody and then pays the destination; an opaque transaction invokes
    /// its target with its payload. Anyone may call it.
    pub fn execute(&mut self, tx_id: u64) -> (r: Outcome<()>)
        requires
            old(self).wf(),
        ensures
            final(self).wf(),
            settled_unchanged(old(self)@.txs, final(self)@.txs),
            r.result is Ok <==> can_execute(old(self)@, tx_id),
            r.result is Ok ==> (tx_at(final(self)@, tx_id) matches Some(t) && t.status
                == TxStatus::Executed),
            match tx_at(old(self)@, tx_id) {
                None => fails_with(r, ForgeError::NotFound, seq![]) && final(self)@ == old(self)@,
                Some(t) => if t.status != TxStatus::Pending || t.confirmations.len()
                    < old(self)@.threshold || t.rejections.len() != 0 {
                    fails_with(r, ForgeError::InvalidInput, seq![]) && final(self)@ == old(self)@
                } else {
                    match t.kind {
                        TxKind::Withdrawal(w) => if balance_of(old(self)@, w.token) < w.amount {
                            fails_with(r, ForgeError::InsufficientFunds, seq![])
                                && final(self)@ == old(self)@
                        } else {
                            &&& r.result == Ok::<(), ForgeError>(())
                            &&& r.auths@ == Seq::<Address>::empty()
                            &&& r.calls@ == seq![
                                transfer_call(
                                    w.token,
                                    Holder::This,
                                    Holder::At(w.destination),
                                    w.amount,
                                ),
                            ]
                            &&& final(self)@.owners == old(self)@.owners
                            &&& final(self)@.threshold == old(self)@.threshold
                            &&& final(self)@.txs == old(self)@.txs.update(
                                tx_id - 1,
                                WalletTxView { status: TxStatus::Executed, ..t },
                            )
                            &&& forall|a: Address| #[trigger]
                                balance_of(final(self)@, a) == if a == w.token {
                                    (balance_of(old(self)@, a) - w.amount) as i128
                                } else {
                                    balance_of(old(self)@, a)
                                }
                        },
                        TxKind::Opaque => {
                            &&& r.result == Ok::<(), ForgeError>(())
                            &&& r.auths@ == Seq::<Address>::empty()
                            &&& r.calls@.len() == 1
                            &&& r.calls@[0] matches HostCall::Invoke { target, payload }
                                && target == t.target && payload@ == t.payload
                            &&& final(self)@ == with_tx(
                                old(self)@,
                                tx_id,
                                WalletTxView { status: TxStatus::Executed, ..t },
                            )
                        },
                    }
                },
            },
    {
        let idx = match self.index_of(tx_id) {
            None => return Outcome::fail(ForgeError::NotFound, Vec::new()),
            Some(i) => i,
        };
        if self.txs[idx].status != TxStatus::Pending {
            return Outcome::fail(ForgeError::InvalidInput, Vec::new());
        }
        if (self.txs[idx].confirmations.len() as u64) < self.threshold as u64 {
            return Outcome::fail(ForgeError::InvalidInput, Vec::new());
        }
        if self.txs[idx].rejections.len() != 0 {
            return Outcome::fail(ForgeError::InvalidInput, Vec::new());
        }
        let ghost old_txs = self.txs@;
        let ghost t = self.txs@[idx as int]@;
        let call = match self.txs[idx].kind {
            TxKind::Withdrawal(w) => {
                let bal = match get_value(&self.balances, &w.token) {
                    Some(b) => b,
                    None => 0,
                };
                if bal < w.amount {
                    return Outcome::fail(ForgeError::InsufficientFunds, Vec::new());
                }
                proof {
                    assert(self@.balances == self.balances@);
                    assert(tx_wf(old(self)@.txs[idx as int], self@.owners, self@.threshold));
                    assert(lookup(self.balances@, w.token) matches Some(b) ==> b >= 0);
                }
                put_value(&mut self.balances, w.token, bal - w.amount);
                HostCall::Transfer {
                    token: w.token,
                    from: Holder::This,
                    to: Holder::At(w.destination),
                    amount: w.amount,
                }
            },
            TxKind::Opaque => HostCall::Invoke {
                target: self.txs[idx].target,
                payload: copy_bytes(&self.txs[idx].payload),
            },
        };
        let mut tx = self.txs[idx].duplicate();
        tx.status = TxStatus::Executed;
        let ghost nt = tx@;
        self.txs.set(idx, tx);
        proof {
            assert(tx_views(self.txs@) =~= tx_views(old_txs).update(idx as int, nt));
            assert(tx_wf(old(self)@.txs[idx as int], self@.owners, self@.threshold));
        }
        Outcome::ok((), Vec::new(), one_call(call))
    }

    /// Deposit `amount` of `token` into custody, pulled from `from` with
    /// its authorization. The wallet must be initialized.
    pub fn deposit(&mut self, token: Address, from: Address, amount: i128) -> (r: Outcome<()>)
        requires
            old(self).wf(),
        ensures
            final(self).wf(),
            settled_unchanged(old(self)@.txs, final(self)@.txs),
            if old(self)@.threshold == 0 {
                fails_with(r, ForgeError::NotInitialized, seq![]) && final(self)@ == old(self)@
            } else if amount <= 0 {
                fails_with(r, ForgeError::InvalidInput, seq![]) && final(self)@ == old(self)@
            } else {
                &&& r.auths@ == seq![from]
                &&& r.calls@ == seq![transfer_call(token, Holder::At(from), Holder::This, amount)]
                &&& if balance_of(old(self)@, token) + amount > i128::MAX {
                    r.result == Err::<(), ForgeError>(ForgeError::ArithmeticOverflow)
                        && final(self)@ == old(self)@
                } else {
                    &&& r.result == Ok::<(), ForgeError>(())
                    &&& final(self)@.owners == old(self)@.owners
                    &&& final(self)@.threshold == old(self)@.threshold
                    &&& final(self)@.txs == old(self)@.txs
                    &&& forall|a: Address| #[trigger]
                        balance_of(final(self)@, a) == if a == token {
                            (balance_of(old(self)@, a) + amount) as i128
                        } else {
                            balance_of(old(self)@, a)
                        }
                }
            },
    {
        if self.threshold == 0 {
            return Outcome::fail(ForgeError::NotInitialized, Vec::new());
        }
        if amount <= 0 {
            return Outcome::fail(ForgeError::InvalidInput, Vec::new());
        }
        let call = HostCall::Transfer { token, from: Holder::At(from), to: Holder::This, amount };
        let bal = match get_value(&self.balances, &token) {
            Some(b) => b,
            None => 0,
        };
        proof {
            assert(self@.balances == self.balances@);
        }
        let updated = match bal.checked_add(amount) {
            None => {
                return Outcome {
                    result: Err(ForgeError::ArithmeticOverflow),
                    auths: one_address(from),
                    calls: one_call(call),
                };
            },
            Some(u) => u,
        };
        put_value(&mut self.balances, token, updated);
        Outcome::ok((), one_address(from), one_call(call))
    }

    /// Submit a withdrawal of `amount` of `token` to `destination` as a
    /// pending transaction; `wallet` is this wallet's own address, recorded
    /// as the transaction's target. Funding is checked at execution.
    pub fn submit_withdrawal(
        &mut self,
        submitter: Address,
        token: Address,
        destination: Address,
        amount: i128,
        wallet: Address,
    ) -> (r: Outcome<u64>)
        requires
            old(self).wf(),
        ensures
            final(self).wf(),
            settled_unchanged(old(self)@.txs, final(self)@.txs),
            if old(self)@.threshold == 0 {
                fails_with(r, ForgeError::NotInitialized, seq![]) && final(self)@ == old(self)@
            } else if !old(self)@.owners.contains(submitter) {
                fails_with(r, ForgeError::Unauthorized, seq![]) && final(self)@ == old(self)@
            } else if amount <= 0 {
                fails_with(r, ForgeError::InvalidInput, seq![]) && final(self)@ == old(self)@
            } else if old(self)@.txs.len() == u64::MAX {
                fails_with(r, ForgeError::ArithmeticOverflow, seq![submitter])
                    && final(self)@ == old(self)@
            } else {
                let id = (old(self)@.txs.len() + 1) as u64;
                &&& r.result == Ok::<u64, ForgeError>(id)
                &&& r.auths@ == seq![submitter]
                &&& r.calls@ == Seq::<HostCall>::empty()
                &&& final(self)@ == (WalletView {
                    txs: old(self)@.txs.push(
                        WalletTxView {
                            tx_id: id,
                            submitter,
                            target: wallet,
                            payload: Seq::empty(),
                            confirmations: Seq::empty(),
                            rejections: Seq::empty(),
                            status: TxStatus::Pending,
                            kind: TxKind::Withdrawal(Withdrawal { token, destination, amount }),
                        },
                    ),
                    ..old(self)@
                })
            },
    {
        if self.threshold == 0 {
            return Outcome::fail(ForgeError::NotInitialized, Vec::new());
        }
        if !self.is_owner_impl(&submitter) {
            return Outcome::fail(ForgeError::Unauthorized, Vec::new());
        }
        if amount <= 0 {
            return Outcome::fail(ForgeError::InvalidInput, Vec::new());
        }
        let empty: Vec<u8> = Vec::new();
        assert(empty@ =~= Seq::<u8>::empty());
        self.push_tx(
            submitter,
            wallet,
            empty,
            TxKind::Withdrawal(Withdrawal { token, destination, amount }),
        )
    }

    /// The custody balance of `token`; zero for a token never deposited.
    pub fn balance(&self, token: Address) -> (b: i128)
        ensures
            b == balance_of(self@, token),
    {
        match get_value(&self.balances, &token) {
            Some(b) => b,
            None => 0,
        }
    }

    /// Keeper entry point: succeeds exactly when `token` has a custody
    /// balance entry.
    pub fn touch_ttl(&self, token: Address) -> (r: Result<(), ForgeError>)
        ensures
            r == if lookup(self@.balances, token) is Some {
                Ok::<(), ForgeError>(())
            } else {
                Err(ForgeError::NotFound)
            },
    {
        match get_value(&self.balances, &token) {
            Some(_) => Ok(()),
            None => Err(ForgeError::NotFound),
        }
    }

    /// The approval threshold.
    pub fn get_threshold(&self) -> (r: Result<u32, ForgeError>)
        ensures
            r == if self@.threshold == 0 {
                Err(ForgeError::NotInitialized)
            } else {
                Ok::<u32, ForgeError>(self@.threshold)
            },
    {
        if self.threshold == 0 {
            Err(ForgeError::NotInitialized)
        } else {
            Ok(self.threshold)
        }
    }

    /// A copy of transaction `tx_id`.
    pub fn get_tx(&self, tx_id: u64) -> (r: Result<WalletTx, ForgeError>)
        ensures
            match tx_at(self@, tx_id) {
                None => r == Err::<WalletTx, ForgeError>(ForgeError::NotFound),
                Some(t) => r matches Ok(tx) && tx@ == t,
            },
    {
        match self.index_of(tx_id) {
            None => Err(ForgeError::NotFound),
            Some(i) => Ok(self.txs[i].duplicate()),
        }
    }

    /// The confirmations recorded for `tx_id`, in order.
    pub fn get_confirmations(&self, tx_id: u64) -> (r: Result<Vec<Address>, ForgeError>)
        ensures
            match tx_at(self@, tx_id) {
                None => r == Err::<Vec<Address>, ForgeError>(ForgeError::NotFound),
                Some(t) => r matches Ok(v) && v@ == t.confirmations,
            },
    {
        match self.index_of(tx_id) {
            None => Err(ForgeError::NotFound),
            Some(i) => Ok(copy_addresses(&self.txs[i].confirmations)),
        }
    }

    /// The rejections recorded for `tx_id`, in order.
    pub fn get_rejections(&self, tx_id: u64) -> (r: Result<Vec<Address>, ForgeError>)
        ensures
            match tx_at(self@, tx_id) {
                None => r == Err::<Vec<Address>, ForgeError>(ForgeError::NotFound),
                Some(t) => r matches Ok(v) && v@ == t.rejections,
            },
    {
        match self.index_of(tx_id) {
            None => Err(ForgeError::NotFound),
            Some(i) => Ok(copy_addresses(&self.txs[i].rejections)),
        }
    }

    /// The owner set, in initialization order.
    pub fn get_owners(&self) -> (r: Result<Vec<Address>, ForgeError>)
        ensures
            self@.threshold == 0 ==> r == Err::<Vec<Address>, ForgeError>(
                ForgeError::NotInitialized,
            ),
            self@.threshold != 0 ==> (r matches Ok(v) && v@ == self@.owners),
    {
        if self.threshold == 0 {
            Err(ForgeError::NotInitialized)
        } else {
            Ok(copy_addresses(&self.owners))
        }
    }

    /// Whether `address` is an owner; an uninitialized wallet has none.
    pub fn is_owner(&self, address: Address) -> (b: bool)
        ensures
            b == self@.owners.contains(address),
    {
        self.is_owner_impl(&address)
    }

    /// Number of transactions submitted so far.
    pub fn get_tx_count(&self) -> (n: u64)
        ensures
            n == self@.txs.len(),
    {
        proof {
            assert(self@.txs.len() == self.txs@.len());
        }
        self.txs.len() as u64
    }

    /// Transactions in id order: skip `offset`, take at most `limit`.
    pub fn get_transactions(&self, offset: u32, limit: u32) -> (r: Result<
        Vec<WalletTx>,
        ForgeError,
    >)
        ensures
            limit == 0 ==> r == Err::<Vec<WalletTx>, ForgeError>(ForgeError::InvalidInput),
            limit != 0 ==> (r matches Ok(v) && ({
                let (lo, hi) = window(self@.txs.len() as int, offset as int, limit as int);
                tx_views(v@) == self@.txs.subrange(lo, hi)
            })),
    {
        if limit == 0 {
            return Err(ForgeError::InvalidInput);
        }
        let count = self.txs.len() as u64;
        let start = offset as u64;
        let mut out: Vec<WalletTx> = Vec::new();
        if start >= count {
            proof {
                assert(tx_views(out@) =~= self@.txs.subrange(count as int, count as int));
            }
            return Ok(out);
        }
        let sum = start + limit as u64;
        let end = if sum < count {
            sum
        } else {
            count
        };
        let end_u = end as usize;
        let mut i = start as usize;
        while i < end_u
            invariant
                start <= i <= end_u,
                end_u == end,
                end <= count,
                count == self.txs@.len(),
                tx_views(out@) == self@.txs.subrange(start as int, i as int),
            decreases end - i,
        {
            let ghost before = out@;
            out.push(self.txs[i].duplicate());
            proof {
                assert(tx_views(out@) =~= tx_views(before).push(self.txs@[i as int]@));
                assert(self@.txs.subrange(start as int, i + 1) =~= self@.txs.subrange(
                    start as int,
                    i as int,
                ).push(self@.txs[i as int]));
            }
            i += 1;
        }
        Ok(out)
    }

    /// Transactions with `status`, in id order: skip `offset` of them, take
    /// at most `limit`.
    pub fn get_transactions_by_status(&self, status: TxStatus, offset: u32, limit: u32) -> (r:
        Result<Vec<WalletTx>, ForgeError>)
        ensures
            limit == 0 ==> r == Err::<Vec<WalletTx>, ForgeError>(ForgeError::InvalidInput),
            limit != 0 ==> (r matches Ok(v) && ({
                let m = with_status(self@.txs, status);
                let (lo, hi) = window(m.len() as int, offset as int, limit as int);
                tx_views(v@) == m.subrange(lo, hi)
            })),
    {
        if limit == 0 {
            return Err(ForgeError::InvalidInput);
        }
        let mut out: Vec<WalletTx> = Vec::new();
        let mut matched: u64 = 0;
        let mut i: usize = 0;
        while i < self.txs.len() && (out.len() as u64) < limit as u64
            invariant
                i <= self.txs@.len(),
                self@.txs.len() == self.txs@.len(),
                limit > 0,
                matched == with_status(self@.txs.subrange(0, i as int), status).len(),
                ({
                    let m = with_status(self@.txs.subrange(0, i as int), status);
                    let (lo, hi) = window(m.len() as int, offset as int, limit as int);
                    tx_views(out@) == m.subrange(lo, hi)
                }),
            decreases self.txs@.len() - i,
        {
            let ghost before = out@;
            let ghost m0 = with_status(self@.txs.subrange(0, i as int), status);
            proof {
                assert(self@.txs.subrange(0, i + 1).drop_last() =~= self@.txs.subrange(0, i as int));
                assert(self@.txs.subrange(0, i + 1).last() == self.txs@[i as int]@);
                lemma_with_status_len(self@.txs.subrange(0, i as int), status);
            }
            if self.txs[i].status == status {
                if matched >= offset as u64 {
                    out.push(self.txs[i].duplicate());
                }
                matched = matched + 1;
                proof {
                    let m1 = m0.push(self.txs@[i as int]@);
                    assert(with_status(self@.txs.subrange(0, i + 1), status) == m1);
                    if matched - 1 >= offset {
                        assert(tx_views(out@) =~= tx_views(before).push(self.txs@[i as int]@));
                    } else {
                        assert(tx_views(out@) =~= tx_views(before));
                    }
                    let (lo0, hi0) = window(m0.len() as int, offset as int, limit as int);
                    let (lo1, hi1) = window(m1.len() as int, offset as int, limit as int);
                    assert(m1.subrange(lo1, hi1) =~= if matched - 1 >= offset {
                        m0.subrange(lo0, hi0).push(self.txs@[i as int]@)
                    } else {
                        m0.subrange(lo0, hi0)
                    });
                }
            }
            i += 1;
        }
        proof {
            let m = with_status(self@.txs, status);
            let mi = with_status(self@.txs.subrange(0, i as int), status);
            lemma_with_status_prefix(self@.txs, i as int, status);
            let (lo, hi) = window(m.len() as int, offset as int, limit as int);
            let (loi, hii) = window(mi.len() as int, offset as int, limit as int);
            if i == self.txs@.len() {
                assert(self@.txs.subrange(0, i as int) =~= self@.txs);
            } else {
                assert(m.subrange(lo, hi) =~= mi.subrange(loi, hii));
            }
        }
        Ok(out)
    }
}

/// How many transactions `with_status` keeps.
pub proof fn lemma_with_status_len(txs: Seq<WalletTxView>, status: TxStatus)
    ensures
        with_status(txs, status).len() <= txs.len(),
    decreases txs.len(),
{
    if txs.len() > 0 {
        lemma_with_status_len(txs.drop_last(), status);
    }
}

/// Filtering a prefix gives a prefix of the filtered whole.
pub proof fn lemma_with_status_prefix(txs: Seq<WalletTxView>, i: int, status: TxStatus)
    requires
        0 <= i <= txs.len(),
    ensures
        with_status(txs.subrange(0, i), status).len() <= with_status(txs, status).len(),
        forall|k: int|
            0 <= k < with_status(txs.subrange(0, i), status).len() ==> #[trigger] with_status(
                txs.subrange(0, i),
                status,
            )[k] == with_status(txs, status)[k],
    decreases txs.len() - i,
{
    if i == txs.len() {
        assert(txs.subrange(0, i) =~= txs);
    } else {
        lemma_with_status_prefix(txs.drop_last(), i, status);
        assert(txs.drop_last().subrange(0, i) =~= txs.subrange(0, i));
    }
}


/// Listing by status keeps exactly the transactions in that status, in
/// submission order: it is the transaction table filtered by status, so
/// every transaction in the status occurs in it whatever else it carries
/// (a pending one with rejections below the threshold included), each of
/// its entries is a transaction of the table in that status, and its length
/// is the number of such transactions.
pub proof fn lemma_with_status_is_exactly_that_status(txs: Seq<WalletTxView>, status: TxStatus)
    ensures
        with_status(txs, status) == txs.filter(|t: WalletTxView| t.status == status),
        forall|i: int|
            0 <= i < txs.len() && (#[trigger] txs[i]).status == status ==> with_status(
                txs,
                status,
            ).contains(txs[i]),
        forall|j: int|
            0 <= j < with_status(txs, status).len() ==> txs.contains(
                #[trigger] with_status(txs, status)[j],
            ) && with_status(txs, status)[j].status == status,
    decreases txs.len(),
{
    let pred = |t: WalletTxView| t.status == status;
    reveal(Seq::filter);
    if txs.len() > 0 {
        lemma_with_status_is_exactly_that_status(txs.drop_last(), status);
    }
    let m = with_status(txs, status);
    assert(m == txs.filter(pred));
    assert forall|i: int| 0 <= i < txs.len() && (#[trigger] txs[i]).status == status implies m.contains(txs[i]) by {
        txs.lemma_filter_contains(pred, i);
    }
    assert forall|j: int| 0 <= j < m.len() implies txs.contains(#[trigger] m[j]) && m[j].status == status by {
        txs.lemma_filter_pred(pred, j);
        broadcast use vstd::seq_lib::group_filter_ensures;

    }
}

} // verus!
