//! DAO governance with proposal bonds.
//!
//! ```text
//! propose (voting_ends = now + duration, bond pulled into custody)
//!   --> Active --vote x n--> voting ends
//!   --> execute: for > against ? Succeeded : Defeated (bond forfeited to treasury)
//!   --> execute (on Succeeded): target.execute(action) --> Executed (bond refunded)
//!   --> cancel (proposer only, while Active): Cancelled (bond refunded)
//! ```
//!
//! Every bond moves exactly once, with its proposal's one terminal
//! transition, and the running custody total always equals the sum of the
//! bonds still posted.
use vstd::prelude::*;
use crate::errors::ForgeError;
use crate::types::{copy_bytes, Address};
use crate::effects::{fails_with, lemma_net_inflow_one, lemma_net_inflow_two, net_inflow, one_address, one_call, transfer_call, Holder, HostCall, Outcome};

verus! {

/// Lifecycle state of a governance proposal.
#[derive(Clone, Copy, Debug, PartialEq, Eq, Structural)]
pub enum ProposalState {
    /// Open for voting.
    Active,
    /// Approved and ready for execution.
    Succeeded,
    /// Rejected once voting ended.
    Defeated,
    /// Executed on-chain (terminal).
    Executed,
    /// Reserved for a timelock; never reached.
    Queued,
    /// Withdrawn by the proposer (terminal).
    Cancelled,
}

/// Lifecycle state of the bond posted for a proposal.
#[derive(Clone, Copy, Debug, PartialEq, Eq, Structural)]
pub enum BondState {
    /// Held in custody since `propose`.
    Posted,
    /// Returned to the proposer (on `Executed` or `Cancelled`).
    Refunded,
    /// Sent to the treasury (on `Defeated`).
    Forfeited,
}

/// The one-time proposal-bond configuration.
#[derive(Clone, Copy, Debug, PartialEq, Eq, Structural)]
pub struct BondConfig {
    /// Token every proposal posts as a bond.
    pub token: Address,
    /// Amount pulled from the proposer on `propose`.
    pub amount: i128,
    /// Receives bonds forfeited by defeated proposals.
    pub treasury: Address,
}

/// A single governance proposal.
#[derive(Clone, Debug)]
pub struct Proposal {
    pub proposal_id: u64,
    pub proposer: Address,
    /// Contract invoked on execution.
    pub target: Address,
    /// Action passed to the target.
    pub action: Vec<u8>,
    /// Tally of "for" votes.
    pub for_votes: i128,
    /// Tally of "against" votes.
    pub against_votes: i128,
    /// Ledger timestamp at which voting closes.
    pub voting_ends: u64,
    pub state: ProposalState,
    /// Token the bond was posted in.
    pub bond_token: Address,
    /// Bond amount posted at creation.
    pub bond_amount: i128,
    pub bond_state: BondState,
}

/// The mathematical content of a [`Proposal`].
pub struct ProposalView {
    pub proposal_id: u64,
    pub proposer: Address,
    pub target: Address,
    pub action: Seq<u8>,
    pub for_votes: i128,
    pub against_votes: i128,
    pub voting_ends: u64,
    pub state: ProposalState,
    pub bond_token: Address,
    pub bond_amount: i128,
    pub bond_state: BondState,
}

impl View for Proposal {
    type V = ProposalView;

    open spec fn view(&self) -> ProposalView {
        ProposalView {
            proposal_id: self.proposal_id,
            proposer: self.proposer,
            target: self.target,
            action: self.action@,
            for_votes: self.for_votes,
            against_votes: self.against_votes,
            voting_ends: self.voting_ends,
            state: self.state,
            bond_token: self.bond_token,
            bond_amount: self.bond_amount,
            bond_state: self.bond_state,
        }
    }
}

impl Proposal {
    /// A field-by-field copy.
    pub fn duplicate(&self) -> (p: Proposal)
        ensures
            p@ == self@,
    {
        Proposal {
            proposal_id: self.proposal_id,
            proposer: self.proposer,
            target: self.target,
            action: copy_bytes(&self.action),
            for_votes: self.for_votes,
            against_votes: self.against_votes,
            voting_ends: self.voting_ends,
            state: self.state,
            bond_token: self.bond_token,
            bond_amount: self.bond_amount,
            bond_state: self.bond_state,
        }
    }
}

/// The tally published when a proposal is finalised.
#[derive(Clone, Copy, Debug, PartialEq, Eq, Structural)]
pub struct Finalised {
    pub proposal_id: u64,
    pub state: ProposalState,
    pub for_votes: i128,
    pub against_votes: i128,
}

impl Finalised {
    /// The finalisation record of `p`.
    pub fn of(p: &Proposal) -> (f: Finalised)
        ensures
            f == (Finalised {
                proposal_id: p.proposal_id,
                state: p.state,
                for_votes: p.for_votes,
                against_votes: p.against_votes,
            }),
    {
        Finalised {
            proposal_id: p.proposal_id,
            state: p.state,
            for_votes: p.for_votes,
            against_votes: p.against_votes,
        }
    }
}

/// The mathematical content of the governance contract.
pub struct DaoView {
    pub bond: Option<BondConfig>,
    /// Running total of bonds in custody.
    pub bond_held: i128,
    pub proposals: Seq<ProposalView>,
    /// Who voted on which proposal.
    pub votes: Seq<(u64, Address)>,
}

/// The custody a proposal contributes: its bond while posted.
pub open spec fn posted(p: ProposalView) -> int {
    if p.bond_state == BondState::Posted {
        p.bond_amount as int
    } else {
        0
    }
}

/// The sum of the bonds still posted.
pub open spec fn posted_sum(ps: Seq<ProposalView>) -> int
    decreases ps.len(),
{
    if ps.len() == 0 {
        0
    } else {
        posted_sum(ps.drop_last()) + posted(ps.last())
    }
}

/// The number of votes recorded on proposal `id`.
pub open spec fn vote_count(vs: Seq<(u64, Address)>, id: u64) -> int
    decreases vs.len(),
{
    if vs.len() == 0 {
        0
    } else {
        vote_count(vs.drop_last(), id) + if vs.last().0 == id {
            1int
        } else {
            0
        }
    }
}

/// Bond and proposal states move together.
pub open spec fn states_agree(p: ProposalView) -> bool {
    &&& (p.state == ProposalState::Active || p.state == ProposalState::Succeeded)
        <==> p.bond_state == BondState::Posted
    &&& p.state == ProposalState::Defeated ==> p.bond_state == BondState::Forfeited
    &&& (p.state == ProposalState::Executed || p.state == ProposalState::Cancelled)
        ==> p.bond_state == BondState::Refunded
    &&& p.state != ProposalState::Queued
}

/// What every operation keeps: no proposal disappears, and a proposal whose
/// bond has been refunded or forfeited never changes again, so each bond
/// moves at most once.
pub open spec fn settled_unchanged(before: Seq<ProposalView>, after: Seq<ProposalView>) -> bool {
    &&& before.len() <= after.len()
    &&& forall|i: int|
        0 <= i < before.len() && (#[trigger] before[i]).bond_state != BondState::Posted
            ==> after[i] == before[i]
}

/// The governance invariant.
pub open spec fn dao_wf(d: DaoView) -> bool {
    &&& d.bond is None ==> d.proposals.len() == 0 && d.bond_held == 0
    &&& d.bond matches Some(c) ==> c.amount > 0
    &&& forall|i: int|
        0 <= i < d.proposals.len() ==> {
            let p = #[trigger] d.proposals[i];
            &&& p.proposal_id == i + 1
            &&& d.bond matches Some(c) && p.bond_amount == c.amount && p.bond_token == c.token
            &&& states_agree(p)
            &&& p.for_votes >= 0 && p.against_votes >= 0
            &&& p.for_votes + p.against_votes == vote_count(d.votes, p.proposal_id)
        }
    &&& d.bond_held == posted_sum(d.proposals)
    &&& forall|i: int, j: int|
        0 <= i < j < d.votes.len() ==> #[trigger] d.votes[i] != #[trigger] d.votes[j]
    &&& forall|i: int| 0 <= i < d.votes.len() ==> 1 <= (#[trigger] d.votes[i]).0 <= d.proposals.len()
}

/// The proposal with id `id`, if any.
pub open spec fn proposal_at(d: DaoView, id: u64) -> Option<ProposalView> {
    if 1 <= id <= d.proposals.len() {
        Some(d.proposals[id - 1])
    } else {
        None
    }
}

/// Whether `vote(id, voter, _, now)` succeeds on `d`: the proposal is
/// active, its voting has not ended and `voter` has not voted on it yet.
pub open spec fn vote_ok(d: DaoView, id: u64, voter: Address, now: u64) -> bool {
    match proposal_at(d, id) {
        None => false,
        Some(p) => p.state == ProposalState::Active && now < p.voting_ends && !d.votes.contains(
            (id, voter),
        ),
    }
}

/// The contract after `vote(id, voter, support, now)`: on success the
/// chosen side of the tally grows by one and the vote is recorded; a
/// refused vote changes nothing.
pub open spec fn vote_next(d: DaoView, id: u64, voter: Address, support: bool, now: u64) -> DaoView {
    if vote_ok(d, id, voter, now) {
        let p = d.proposals[id - 1];
        DaoView {
            proposals: d.proposals.update(
                id - 1,
                if support {
                    ProposalView { for_votes: (p.for_votes + 1) as i128, ..p }
                } else {
                    ProposalView { against_votes: (p.against_votes + 1) as i128, ..p }
                },
            ),
            votes: d.votes.push((id, voter)),
            ..d
        }
    } else {
        d
    }
}

/// The contract after casting each ballot `(voter, support)` of `ballots`
/// on proposal `id` at `now`, in order.
pub open spec fn cast_votes(d: DaoView, id: u64, ballots: Seq<(Address, bool)>, now: u64) -> DaoView
    decreases ballots.len(),
{
    if ballots.len() == 0 {
        d
    } else {
        vote_next(
            cast_votes(d, id, ballots.drop_last(), now),
            id,
            ballots.last().0,
            ballots.last().1,
            now,
        )
    }
}

/// The voters of a run of ballots, in order.
pub open spec fn voters(ballots: Seq<(Address, bool)>) -> Seq<Address> {
    ballots.map_values(|b: (Address, bool)| b.0)
}

/// Whether the voter of ballot `k` had already voted on `id`: before the
/// run, or by an earlier ballot of the run.
pub open spec fn voted_before(d: DaoView, id: u64, ballots: Seq<(Address, bool)>, k: int) -> bool {
    d.votes.contains((id, ballots[k].0)) || voters(ballots.take(k)).contains(ballots[k].0)
}

/// The number of ballots of the run on the side `support` whose voter had
/// not voted before.
pub open spec fn tally(d: DaoView, id: u64, ballots: Seq<(Address, bool)>, support: bool) -> int
    decreases ballots.len(),
{
    if ballots.len() == 0 {
        0
    } else {
        tally(d, id, ballots.drop_last(), support) + if ballots.last().1 == support
            && !voted_before(d, id, ballots, ballots.len() - 1) {
            1int
        } else {
            0
        }
    }
}

/// The views of a vector of proposals.
pub open spec fn proposal_views(v: Seq<Proposal>) -> Seq<ProposalView> {
    Seq::new(v.len(), |i: int| v[i]@)
}

proof fn lemma_posted_sum_update(ps: Seq<ProposalView>, k: int, p: ProposalView)
    requires
        0 <= k < ps.len(),
    ensures
        posted_sum(ps.update(k, p)) == posted_sum(ps) - posted(ps[k]) + posted(p),
    decreases ps.len(),
{
    let t = ps.update(k, p);
    if k == ps.len() - 1 {
        assert(t.drop_last() =~= ps.drop_last());
    } else {
        assert(t.drop_last() =~= ps.drop_last().update(k, p));
        lemma_posted_sum_update(ps.drop_last(), k, p);
    }
}

proof fn lemma_posted_sum_push(ps: Seq<ProposalView>, p: ProposalView)
    ensures
        posted_sum(ps.push(p)) == posted_sum(ps) + posted(p),
{
    assert(ps.push(p).drop_last() =~= ps);
}

proof fn lemma_posted_sum_covers(ps: Seq<ProposalView>, k: int)
    requires
        0 <= k < ps.len(),
        forall|i: int| 0 <= i < ps.len() ==> posted(#[trigger] ps[i]) >= 0,
    ensures
        posted_sum(ps) >= posted(ps[k]),
    decreases ps.len(),
{
    lemma_posted_sum_nonneg(ps.drop_last());
    if k < ps.len() - 1 {
        assert(forall|i: int| 0 <= i < ps.drop_last().len() ==> ps.drop_last()[i] == ps[i]);
        lemma_posted_sum_covers(ps.drop_last(), k);
    }
}

proof fn lemma_posted_sum_nonneg(ps: Seq<ProposalView>)
    requires
        forall|i: int| 0 <= i < ps.len() ==> posted(#[trigger] ps[i]) >= 0,
    ensures
        posted_sum(ps) >= 0,
    decreases ps.len(),
{
    if ps.len() > 0 {
        assert(forall|i: int| 0 <= i < ps.drop_last().len() ==> ps.drop_last()[i] == ps[i]);
        lemma_posted_sum_nonneg(ps.drop_last());
        assert(posted(ps[ps.len() - 1]) >= 0);
    }
}

proof fn lemma_vote_count_push(vs: Seq<(u64, Address)>, v: (u64, Address), id: u64)
    ensures
        vote_count(vs.push(v), id) == vote_count(vs, id) + if v.0 == id {
            1int
        } else {
            0
        },
{
    assert(vs.push(v).drop_last() =~= vs);
}

proof fn lemma_vote_count_bound(vs: Seq<(u64, Address)>, id: u64)
    ensures
        0 <= vote_count(vs, id) <= vs.len(),
    decreases vs.len(),
{
    if vs.len() > 0 {
        lemma_vote_count_bound(vs.drop_last(), id);
    }
}

/// Prefix sums of bonds that are all non-negative never exceed the whole.
proof fn lemma_posted_sum_prefix(ps: Seq<ProposalView>, i: int)
    requires
        0 <= i <= ps.len(),
        forall|j: int| 0 <= j < ps.len() ==> posted(#[trigger] ps[j]) >= 0,
    ensures
        posted_sum(ps.subrange(0, i)) <= posted_sum(ps),
    decreases ps.len() - i,
{
    if i == ps.len() {
        assert(ps.subrange(0, i) =~= ps);
    } else {
        let d = ps.drop_last();
        assert(forall|j: int| 0 <= j < d.len() ==> d[j] == ps[j]);
        lemma_posted_sum_prefix(d, i);
        assert(d.subrange(0, i) =~= ps.subrange(0, i));
        assert(posted(ps[ps.len() - 1]) >= 0);
    }
}

/// The number of votes on proposal `id`.
fn count_votes(votes: &Vec<(u64, Address)>, id: u64) -> (n: usize)
    ensures
        n == vote_count(votes@, id),
{
    let mut n: usize = 0;
    let mut j: usize = 0;
    proof {
        assert(votes@.subrange(0, 0) =~= Seq::<(u64, Address)>::empty());
    }
    while j < votes.len()
        invariant
            j <= votes@.len(),
            n <= j,
            n == vote_count(votes@.subrange(0, j as int), id),
        decreases votes@.len() - j,
    {
        proof {
            assert(votes@.subrange(0, j + 1).drop_last() =~= votes@.subrange(0, j as int));
        }
        if votes[j].0 == id {
            n += 1;
        }
        j += 1;
    }
    proof {
        assert(votes@.subrange(0, votes@.len() as int) =~= votes@);
    }
    n
}

/// Whether `p` agrees with the configured bond and the recorded votes.
fn proposal_follows_rules(p: &Proposal, i: usize, c: &BondConfig, votes: &Vec<(u64, Address)>) -> (b:
    bool)
    ensures
        b == ({
            let pv = p@;
            &&& pv.proposal_id == i + 1
            &&& pv.bond_amount == c.amount && pv.bond_token == c.token
            &&& states_agree(pv)
            &&& pv.for_votes >= 0 && pv.against_votes >= 0
            &&& pv.for_votes + pv.against_votes == vote_count(votes@, pv.proposal_id)
        }),
{
    if p.proposal_id as u128 != i as u128 + 1 || p.bond_amount != c.amount || p.bond_token
        != c.token {
        return false;
    }
    let active = p.state == ProposalState::Active || p.state == ProposalState::Succeeded;
    let agree = active == (p.bond_state == BondState::Posted) && (p.state
        != ProposalState::Defeated || p.bond_state == BondState::Forfeited) && ((p.state
        != ProposalState::Executed && p.state != ProposalState::Cancelled) || p.bond_state
        == BondState::Refunded) && p.state != ProposalState::Queued;
    if !agree || p.for_votes < 0 || p.against_votes < 0 {
        return false;
    }
    let n = count_votes(votes, p.proposal_id);
    proof {
        lemma_vote_count_bound(votes@, p.proposal_id);
    }
    let total = n as i128;
    p.for_votes <= total && p.against_votes == total - p.for_votes
}

/// The state of the governance contract.
pub struct DaoGovernance {
    bond: Option<BondConfig>,
    bond_held: i128,
    proposals: Vec<Proposal>,
    votes: Vec<(u64, Address)>,
}

impl View for DaoGovernance {
    type V = DaoView;

    closed spec fn view(&self) -> DaoView {
        DaoView {
            bond: self.bond,
            bond_held: self.bond_held,
            proposals: proposal_views(self.proposals@),
            votes: self.votes@,
        }
    }
}

impl DaoGovernance {
    /// The governance invariant.
    pub open spec fn wf(&self) -> bool {
        dao_wf(self@)
    }

    /// A governance contract with no bond configured and no proposals.
    pub fn new() -> (d: Self)
        ensures
            d.wf(),
            d@.bond is None,
            d@.bond_held == 0,
            d@.proposals.len() == 0,
            d@.votes.len() == 0,
    {
        let d = DaoGovernance { bond: None, bond_held: 0, proposals: Vec::new(), votes: Vec::new() };
        assert(d@.proposals =~= Seq::<ProposalView>::empty());
        d
    }

    /// Rebuild the contract from its stored parts, refusing parts that
    /// break the governance invariant.
    pub fn from_parts(
        bond: Option<BondConfig>,
        bond_held: i128,
        proposals: Vec<Proposal>,
        votes: Vec<(u64, Address)>,
    ) -> (r: Option<Self>)
        ensures
            ({
                let v = DaoView {
                    bond,
                    bond_held,
                    proposals: proposal_views(proposals@),
                    votes: votes@,
                };
                &&& r matches Some(d) ==> d.wf() && d@ == v
                &&& r is None <==> !dao_wf(v)
            }),
    {
        let ghost v = DaoView {
            bond,
            bond_held,
            proposals: proposal_views(proposals@),
            votes: votes@,
        };
        let c = match bond {
            None => {
                if proposals.len() == 0 && bond_held == 0 && votes.len() == 0 {
                    let d = DaoGovernance { bond, bond_held, proposals, votes };
                    assert(d@.proposals =~= Seq::<ProposalView>::empty());
                    return Some(d);
                }
                proof {
                    if votes@.len() > 0 && proposals@.len() == 0 {
                        assert(!(1 <= v.votes[0].0 <= v.proposals.len()));
                    }
                }
                return None;
            },
            Some(c) => c,
        };
        if c.amount <= 0 {
            return None;
        }
        let mut i: usize = 0;
        while i < proposals.len()
            invariant
                i <= proposals@.len(),
                v == (DaoView {
                    bond,
                    bond_held,
                    proposals: proposal_views(proposals@),
                    votes: votes@,
                }),
                v.bond == Some(c),
                c.amount > 0,
                forall|j: int|
                    0 <= j < i ==> {
                        let p = #[trigger] v.proposals[j];
                        &&& p.proposal_id == j + 1
                        &&& v.bond matches Some(c) && p.bond_amount == c.amount && p.bond_token
                            == c.token
                        &&& states_agree(p)
                        &&& p.for_votes >= 0 && p.against_votes >= 0
                        &&& p.for_votes + p.against_votes == vote_count(v.votes, p.proposal_id)
                    },
            decreases proposals@.len() - i,
        {
            assert(v.proposals[i as int] == proposals@[i as int]@);
            if !proposal_follows_rules(&proposals[i], i, &c, &votes) {
                proof {
                    if dao_wf(v) {
                        let p = v.proposals[i as int];
                        assert(p.proposal_id == i + 1);
                    }
                }
                return None;
            }
            i += 1;
        }
        proof {
            assert forall|j: int| 0 <= j < v.proposals.len() implies posted(
                #[trigger] v.proposals[j],
            ) >= 0 by {
                assert(v.proposals[j].bond_amount == c.amount);
            }
        }
        let mut sum: i128 = 0;
        let mut k: usize = 0;
        proof {
            assert(v.proposals.subrange(0, 0) =~= Seq::<ProposalView>::empty());
        }
        while k < proposals.len()
            invariant
                k <= proposals@.len(),
                v.proposals == proposal_views(proposals@),
                forall|j: int| 0 <= j < v.proposals.len() ==> posted(#[trigger] v.proposals[j]) >= 0,
                sum == posted_sum(v.proposals.subrange(0, k as int)),
            decreases proposals@.len() - k,
        {
            proof {
                assert(v.proposals.subrange(0, k + 1).drop_last() =~= v.proposals.subrange(
                    0,
                    k as int,
                ));
                assert(v.proposals[k as int] == proposals@[k as int]@);
            }
            let add = if proposals[k].bond_state == BondState::Posted {
                proposals[k].bond_amount
            } else {
                0
            };
            sum = match sum.checked_add(add) {
                None => {
                    proof {
                        lemma_posted_sum_prefix(v.proposals, k + 1);
                    }
                    return None;
                },
                Some(t) => t,
            };
            k += 1;
        }
        proof {
            assert(v.proposals.subrange(0, k as int) =~= v.proposals);
        }
        if sum != bond_held {
            return None;
        }
        let mut a: usize = 0;
        while a < votes.len()
            invariant
                a <= votes@.len(),
                v == (DaoView {
                    bond,
                    bond_held,
                    proposals: proposal_views(proposals@),
                    votes: votes@,
                }),
                v.proposals.len() == proposals@.len(),
                forall|x: int, y: int|
                    0 <= x < y < a ==> #[trigger] votes@[x] != #[trigger] votes@[y],
                forall|x: int| 0 <= x < a ==> 1 <= (#[trigger] votes@[x]).0 <= proposals@.len(),
            decreases votes@.len() - a,
        {
            if votes[a].0 == 0 || votes[a].0 as u128 > proposals.len() as u128 {
                proof {
                    if dao_wf(v) {
                        assert(1 <= v.votes[a as int].0 <= v.proposals.len());
                    }
                }
                return None;
            }
            let mut b: usize = 0;
            while b < a
                invariant
                    b <= a < votes@.len(),
                    v == (DaoView {
                        bond,
                        bond_held,
                        proposals: proposal_views(proposals@),
                        votes: votes@,
                    }),
                    forall|x: int| 0 <= x < b ==> votes@[x] != votes@[a as int],
                decreases a - b,
            {
                if votes[b].0 == votes[a].0 && votes[b].1 == votes[a].1 {
                    proof {
                        assert(votes@[b as int] == votes@[a as int]);
                        assert(v.votes[b as int] == v.votes[a as int]);
                    }
                    return None;
                }
                b += 1;
            }
            a += 1;
        }
        let d = DaoGovernance { bond, bond_held, proposals, votes };
        Some(d)
    }

    /// The stored parts: bond configuration, bonds held, proposals and
    /// votes.
    pub fn parts(&self) -> (r: (Option<BondConfig>, i128, &Vec<Proposal>, &Vec<(u64, Address)>))
        ensures
            r.0 == self@.bond,
            r.1 == self@.bond_held,
            proposal_views(r.2@) == self@.proposals,
            r.3@ == self@.votes,
    {
        (self.bond, self.bond_held, &self.proposals, &self.votes)
    }

    fn index_of(&self, proposal_id: u64) -> (r: Option<usize>)
        ensures
            proposal_at(self@, proposal_id) is None <==> r is None,
            r matches Some(i) ==> i as int == proposal_id - 1 && i < self@.proposals.len()
                && self@.proposals[i as int] == self.proposals@[i as int]@,
    {
        if proposal_id == 0 || proposal_id as u128 > self.proposals.len() as u128 {
            None
        } else {
            Some((proposal_id - 1) as usize)
        }
    }

    /// Configure the proposal bond, once: the token, the amount pulled per
    /// proposal (positive) and the treasury that receives forfeits.
    pub fn configure_bond(&mut self, token: Address, amount: i128, treasury: Address) -> (r: Result<
        (),
        ForgeError,
    >)
        requires
            old(self).wf(),
        ensures
            final(self).wf(),
            settled_unchanged(old(self)@.proposals, final(self)@.proposals),
            r == if old(self)@.bond is Some {
                Err(ForgeError::AlreadyInitialized)
            } else if amount <= 0 {
                Err(ForgeError::InvalidInput)
            } else {
                Ok::<(), ForgeError>(())
            },
            r is Ok ==> final(self)@ == (DaoView {
                bond: Some(BondConfig { token, amount, treasury }),
                bond_held: 0,
                ..old(self)@
            }),
            r is Err ==> final(self)@ == old(self)@,
    {
        if self.bond.is_some() {
            return Err(ForgeError::AlreadyInitialized);
        }
        if amount <= 0 {
            return Err(ForgeError::InvalidInput);
        }
        self.bond = Some(BondConfig { token, amount, treasury });
        self.bond_held = 0;
        Ok(())
    }

    /// The bond configuration.
    pub fn get_bond_config(&self) -> (r: Result<BondConfig, ForgeError>)
        ensures
            r == match self@.bond {
                Some(c) => Ok::<BondConfig, ForgeError>(c),
                None => Err(ForgeError::NotInitialized),
            },
    {
        match self.bond {
            Some(c) => Ok(c),
            None => Err(ForgeError::NotInitialized),
        }
    }

    /// Create a proposal whose voting closes at `now + duration` and return
    /// its id. The proposer authorizes and posts the configured bond, which
    /// moves into custody.
    pub fn propose(
        &mut self,
        proposer: Address,
        target: Address,
        action: Vec<u8>,
        duration: u64,
        now: u64,
    ) -> (r: Outcome<u64>)
        requires
            old(self).wf(),
        ensures
            final(self).wf(),
            settled_unchanged(old(self)@.proposals, final(self)@.proposals),
            old(self)@.bond matches Some(c) ==> (r.result is Ok ==> net_inflow(r.calls@, c.token)
                == final(self)@.bond_held - old(self)@.bond_held),
            if duration == 0 {
                fails_with(r, ForgeError::InvalidInput, seq![]) && final(self)@ == old(self)@
            } else {
                match old(self)@.bond {
                    None => fails_with(r, ForgeError::NotInitialized, seq![proposer])
                        && final(self)@ == old(self)@,
                    Some(c) => if old(self)@.proposals.len() == u64::MAX || now + duration
                        > u64::MAX || old(self)@.bond_held + c.amount > i128::MAX {
                        fails_with(r, ForgeError::ArithmeticOverflow, seq![proposer])
                            && final(self)@ == old(self)@
                    } else {
                        let id = (old(self)@.proposals.len() + 1) as u64;
                        &&& r.result == Ok::<u64, ForgeError>(id)
                        &&& r.auths@ == seq![proposer]
                        &&& r.calls@ == seq![
                            transfer_call(c.token, Holder::At(proposer), Holder::This, c.amount),
                        ]
                        &&& final(self)@ == (DaoView {
                            bond_held: (old(self)@.bond_held + c.amount) as i128,
                            proposals: old(self)@.proposals.push(
                                ProposalView {
                                    proposal_id: id,
                                    proposer,
                                    target,
                                    action: action@,
                                    for_votes: 0,
                                    against_votes: 0,
                                    voting_ends: (now + duration) as u64,
                                    state: ProposalState::Active,
                                    bond_token: c.token,
                                    bond_amount: c.amount,
                                    bond_state: BondState::Posted,
                                },
                            ),
                            ..old(self)@
                        })
                    },
                }
            },
    {
        if duration == 0 {
            return Outcome::fail(ForgeError::InvalidInput, Vec::new());
        }
        let bond = match self.bond {
            None => return Outcome::fail(ForgeError::NotInitialized, one_address(proposer)),
            Some(c) => c,
        };
        let count = self.proposals.len() as u64;
        if count == u64::MAX {
            return Outcome::fail(ForgeError::ArithmeticOverflow, one_address(proposer));
        }
        let voting_ends = match now.checked_add(duration) {
            None => return Outcome::fail(ForgeError::ArithmeticOverflow, one_address(proposer)),
            Some(t) => t,
        };
        let next_held = match self.bond_held.checked_add(bond.amount) {
            None => return Outcome::fail(ForgeError::ArithmeticOverflow, one_address(proposer)),
            Some(h) => h,
        };
        let id = count + 1;
        let call = HostCall::Transfer {
            token: bond.token,
            from: Holder::At(proposer),
            to: Holder::This,
            amount: bond.amount,
        };
        let p = Proposal {
            proposal_id: id,
            proposer,
            target,
            action,
            for_votes: 0,
            against_votes: 0,
            voting_ends,
            state: ProposalState::Active,
            bond_token: bond.token,
            bond_amount: bond.amount,
            bond_state: BondState::Posted,
        };
        let ghost old_ps = self.proposals@;
        let ghost pv = p@;
        self.proposals.push(p);
        self.bond_held = next_held;
        proof {
            assert(proposal_views(self.proposals@) =~= proposal_views(old_ps).push(pv));
            lemma_posted_sum_push(proposal_views(old_ps), pv);
            assert forall|i: int| 0 <= i < self@.votes.len() implies 1 <= (
            #[trigger] self@.votes[i]).0 <= self@.proposals.len() by {
                assert(1 <= old(self)@.votes[i].0 <= old(self)@.proposals.len());
            }
            assert(vote_count(self@.votes, id) == 0) by {
                lemma_vote_count_zero(self@.votes, id);
            }
        }
        proof {
            lemma_net_inflow_one(call, bond.token);
        }
        Outcome::ok(id, one_address(proposer), one_call(call))
    }

    /// Cast `voter`'s vote on an active proposal before its deadline. One
    /// vote per voter per proposal; the voter authorizes.
    pub fn vote(&mut self, proposal_id: u64, voter: Address, support: bool, now: u64) -> (r:
        Outcome<()>)
        requires
            old(self).wf(),
        ensures
            final(self).wf(),
            settled_unchanged(old(self)@.proposals, final(self)@.proposals),
            match proposal_at(old(self)@, proposal_id) {
                None => fails_with(r, ForgeError::NotFound, seq![]) && final(self)@ == old(self)@,
                Some(p) => if p.state != ProposalState::Active {
                    fails_with(r, ForgeError::InvalidInput, seq![]) && final(self)@ == old(self)@
                } else if now >= p.voting_ends {
                    fails_with(r, ForgeError::DeadlineReached, seq![])
                        && final(self)@ == old(self)@
                } else if old(self)@.votes.contains((proposal_id, voter)) {
                    fails_with(r, ForgeError::InvalidInput, seq![voter])
                        && final(self)@ == old(self)@
                } else {
                    &&& r.result == Ok::<(), ForgeError>(())
                    &&& r.auths@ == seq![voter]
                    &&& r.calls@ == Seq::<HostCall>::empty()
                    &&& final(self)@ == (DaoView {
                        proposals: old(self)@.proposals.update(
                            proposal_id - 1,
                            if support {
                                ProposalView { for_votes: (p.for_votes + 1) as i128, ..p }
                            } else {
                                ProposalView { against_votes: (p.against_votes + 1) as i128, ..p }
                            },
                        ),
                        votes: old(self)@.votes.push((proposal_id, voter)),
                        ..old(self)@
                    })
                },
            },
            r.result is Ok <==> vote_ok(old(self)@, proposal_id, voter, now),
            final(self)@ == vote_next(old(self)@, proposal_id, voter, support, now),
    {
        let idx = match self.index_of(proposal_id) {
            None => return Outcome::fail(ForgeError::NotFound, Vec::new()),
            Some(i) => i,
        };
        if self.proposals[idx].state != ProposalState::Active {
            return Outcome::fail(ForgeError::InvalidInput, Vec::new());
        }
        if now >= self.proposals[idx].voting_ends {
            return Outcome::fail(ForgeError::DeadlineReached, Vec::new());
        }
        if self.has_vote(proposal_id, &voter) {
            return Outcome::fail(ForgeError::InvalidInput, one_address(voter));
        }
        let ghost old_ps = self.proposals@;
        let ghost p = self.proposals@[idx as int]@;
        let n_votes = self.votes.len();
        proof {
            lemma_vote_count_bound(self@.votes, proposal_id);
            let q = self@.proposals[idx as int];
            assert(q.for_votes + q.against_votes == vote_count(self@.votes, q.proposal_id));
            assert(q.for_votes >= 0 && q.against_votes >= 0);
            assert(self@.votes.len() == n_votes);
        }
        let mut np = self.proposals[idx].duplicate();
        if support {
            np.for_votes = np.for_votes + 1;
        } else {
            np.against_votes = np.against_votes + 1;
        }
        let ghost npv = np@;
        self.proposals.set(idx, np);
        self.votes.push((proposal_id, voter));
        proof {
            assert(proposal_views(self.proposals@) =~= proposal_views(old_ps).update(
                idx as int,
                npv,
            ));
            lemma_posted_sum_update(proposal_views(old_ps), idx as int, npv);
            let ov = old(self)@.votes;
            let nv = self@.votes;
            assert forall|i: int| 0 <= i < self@.proposals.len() implies {
                let q = #[trigger] self@.proposals[i];
                q.for_votes + q.against_votes == vote_count(nv, q.proposal_id)
            } by {
                lemma_vote_count_push(ov, (proposal_id, voter), self@.proposals[i].proposal_id);
            }
            assert forall|i: int, j: int| 0 <= i < j < nv.len() implies #[trigger] nv[i]
                != #[trigger] nv[j] by {
                if j == ov.len() {
                    assert(ov.contains(ov[i]));
                }
            }
        }
        Outcome::ok((), one_address(voter), Vec::new())
    }

    fn has_vote(&self, proposal_id: u64, voter: &Address) -> (b: bool)
        ensures
            b == self@.votes.contains((proposal_id, *voter)),
    {
        let mut i: usize = 0;
        while i < self.votes.len()
            invariant
                i <= self.votes@.len(),
                self@.votes == self.votes@,
                forall|j: int| 0 <= j < i ==> self.votes@[j] != (proposal_id, *voter),
            decreases self.votes@.len() - i,
        {
            let (pid, v) = self.votes[i];
            if pid == proposal_id && v == *voter {
                proof {
                    assert(self.votes@[i as int] == (proposal_id, *voter));
                }
                return true;
            }
            i += 1;
        }
        false
    }

    /// Finalise a proposal once voting has ended (`now >= voting_ends`),
    /// and execute a passed one. An `Active` proposal becomes `Succeeded`
    /// on a strict majority of "for" votes; otherwise it is `Defeated` and
    /// its bond goes to the treasury. A `Succeeded` proposal invokes its
    /// target with its action and refunds the bond to the proposer. Anyone
    /// may call it.
    pub fn execute(&mut self, proposal_id: u64, now: u64) -> (r: Outcome<()>)
        requires
            old(self).wf(),
        ensures
            final(self).wf(),
            settled_unchanged(old(self)@.proposals, final(self)@.proposals),
            old(self)@.bond matches Some(c) ==> (r.result is Ok ==> net_inflow(r.calls@, c.token)
                == final(self)@.bond_held - old(self)@.bond_held),
            match proposal_at(old(self)@, proposal_id) {
                None => fails_with(r, ForgeError::NotFound, seq![]) && final(self)@ == old(self)@,
                Some(p) => if now < p.voting_ends {
                    fails_with(r, ForgeError::InvalidInput, seq![]) && final(self)@ == old(self)@
                } else if p.state == ProposalState::Active && p.for_votes > p.against_votes {
                    &&& r.result == Ok::<(), ForgeError>(())
                    &&& r.auths@ == Seq::<Address>::empty()
                    &&& r.calls@ == Seq::<HostCall>::empty()
                    &&& final(self)@ == (DaoView {
                        proposals: old(self)@.proposals.update(
                            proposal_id - 1,
                            ProposalView { state: ProposalState::Succeeded, ..p },
                        ),
                        ..old(self)@
                    })
                } else if p.state == ProposalState::Active {
                    let c = old(self)@.bond->Some_0;
                    &&& r.result == Ok::<(), ForgeError>(())
                    &&& r.auths@ == Seq::<Address>::empty()
                    &&& r.calls@ == seq![
                        transfer_call(c.token, Holder::This, Holder::At(c.treasury), p.bond_amount),
                    ]
                    &&& final(self)@ == (DaoView {
                        bond_held: (old(self)@.bond_held - p.bond_amount) as i128,
                        proposals: old(self)@.proposals.update(
                            proposal_id - 1,
                            ProposalView {
                                state: ProposalState::Defeated,
                                bond_state: BondState::Forfeited,
                                ..p
                            },
                        ),
                        ..old(self)@
                    })
                } else if p.state == ProposalState::Succeeded {
                    let c = old(self)@.bond->Some_0;
                    &&& r.result == Ok::<(), ForgeError>(())
                    &&& r.auths@ == Seq::<Address>::empty()
                    &&& r.calls@.len() == 2
                    &&& r.calls@[0] matches HostCall::Invoke { target, payload }
                        && target == p.target && payload@ == p.action
                    &&& r.calls@[1] == transfer_call(
                        c.token,
                        Holder::This,
                        Holder::At(p.proposer),
                        p.bond_amount,
                    )
                    &&& final(self)@ == (DaoView {
                        bond_held: (old(self)@.bond_held - p.bond_amount) as i128,
                        proposals: old(self)@.proposals.update(
                            proposal_id - 1,
                            ProposalView {
                                state: ProposalState::Executed,
                                bond_state: BondState::Refunded,
                                ..p
                            },
                        ),
                        ..old(self)@
                    })
                } else {
                    fails_with(r, ForgeError::InvalidInput, seq![]) && final(self)@ == old(self)@
                },
            },
    {
        let idx = match self.index_of(proposal_id) {
            None => return Outcome::fail(ForgeError::NotFound, Vec::new()),
            Some(i) => i,
        };
        if now < self.proposals[idx].voting_ends {
            return Outcome::fail(ForgeError::InvalidInput, Vec::new());
        }
        let state = self.proposals[idx].state;
        if state != ProposalState::Active && state != ProposalState::Succeeded {
            return Outcome::fail(ForgeError::InvalidInput, Vec::new());
        }
        let ghost old_ps = self.proposals@;
        let ghost p = self.proposals@[idx as int]@;
        if state == ProposalState::Active && self.proposals[idx].for_votes
            > self.proposals[idx].against_votes {
            let mut np = self.proposals[idx].duplicate();
            np.state = ProposalState::Succeeded;
            let ghost npv = np@;
            self.proposals.set(idx, np);
            proof {
                assert(proposal_views(self.proposals@) =~= proposal_views(old_ps).update(
                    idx as int,
                    npv,
                ));
                lemma_posted_sum_update(proposal_views(old_ps), idx as int, npv);
            }
            return Outcome::ok((), Vec::new(), Vec::new());
        }
        let bond = match self.bond {
            Some(c) => c,
            None => {
                proof {
                    assert(false);
                }
                return Outcome::fail(ForgeError::NotInitialized, Vec::new());
            },
        };
        proof {
            let ps = old(self)@.proposals;
            assert forall|i: int| 0 <= i < ps.len() implies posted(#[trigger] ps[i]) >= 0 by {
                assert(ps[i].bond_amount == bond.amount);
            }
            lemma_posted_sum_covers(ps, idx as int);
        }
        let amount = self.proposals[idx].bond_amount;
        let next_held = self.bond_held - amount;
        let mut np = self.proposals[idx].duplicate();
        let mut calls: Vec<HostCall> = Vec::new();
        if state == ProposalState::Active {
            np.state = ProposalState::Defeated;
            np.bond_state = BondState::Forfeited;
            let pay = HostCall::Transfer {
                token: bond.token,
                from: Holder::This,
                to: Holder::At(bond.treasury),
                amount,
            };
            calls.push(pay);
            proof {
                assert(calls@ =~= seq![pay]);
                lemma_net_inflow_one(pay, bond.token);
            }
        } else {
            np.state = ProposalState::Executed;
            np.bond_state = BondState::Refunded;
            let invoke = HostCall::Invoke {
                target: self.proposals[idx].target,
                payload: copy_bytes(&self.proposals[idx].action),
            };
            let pay = HostCall::Transfer {
                token: bond.token,
                from: Holder::This,
                to: Holder::At(self.proposals[idx].proposer),
                amount,
            };
            calls.push(invoke);
            calls.push(pay);
            proof {
                assert(calls@ =~= seq![invoke, pay]);
                lemma_net_inflow_two(invoke, pay, bond.token);
            }
        }
        let ghost npv = np@;
        self.proposals.set(idx, np);
        self.bond_held = next_held;
        proof {
            assert(proposal_views(self.proposals@) =~= proposal_views(old_ps).update(
                idx as int,
                npv,
            ));
            lemma_posted_sum_update(proposal_views(old_ps), idx as int, npv);
        }
        Outcome::ok((), Vec::new(), calls)
    }

    /// Withdraw an active proposal. Only its proposer may, with
    /// authorization; the bond is refunded in the same call.
    pub fn cancel_proposal(&mut self, proposal_id: u64, proposer: Address) -> (r: Outcome<()>)
        requires
            old(self).wf(),
        ensures
            final(self).wf(),
            settled_unchanged(old(self)@.proposals, final(self)@.proposals),
            old(self)@.bond matches Some(c) ==> (r.result is Ok ==> net_inflow(r.calls@, c.token)
                == final(self)@.bond_held - old(self)@.bond_held),
            match proposal_at(old(self)@, proposal_id) {
                None => fails_with(r, ForgeError::NotFound, seq![]) && final(self)@ == old(self)@,
                Some(p) => if p.state != ProposalState::Active {
                    fails_with(r, ForgeError::InvalidInput, seq![]) && final(self)@ == old(self)@
                } else if proposer != p.proposer {
                    fails_with(r, ForgeError::Unauthorized, seq![]) && final(self)@ == old(self)@
                } else {
                    let c = old(self)@.bond->Some_0;
                    &&& r.result == Ok::<(), ForgeError>(())
                    &&& r.auths@ == seq![proposer]
                    &&& r.calls@ == seq![
                        transfer_call(c.token, Holder::This, Holder::At(proposer), p.bond_amount),
                    ]
                    &&& final(self)@ == (DaoView {
                        bond_held: (old(self)@.bond_held - p.bond_amount) as i128,
                        proposals: old(self)@.proposals.update(
                            proposal_id - 1,
                            ProposalView {
                                state: ProposalState::Cancelled,
                                bond_state: BondState::Refunded,
                                ..p
                            },
                        ),
                        ..old(self)@
                    })
                },
            },
    {
        let idx = match self.index_of(proposal_id) {
            None => return Outcome::fail(ForgeError::NotFound, Vec::new()),
            Some(i) => i,
        };
        if self.proposals[idx].state != ProposalState::Active {
            return Outcome::fail(ForgeError::InvalidInput, Vec::new());
        }
        if proposer != self.proposals[idx].proposer {
            return Outcome::fail(ForgeError::Unauthorized, Vec::new());
        }
        let bond = match self.bond {
            Some(c) => c,
            None => {
                proof {
                    assert(false);
                }
                return Outcome::fail(ForgeError::NotInitialized, Vec::new());
            },
        };
        let ghost old_ps = self.proposals@;
        proof {
            let ps = old(self)@.proposals;
            assert forall|i: int| 0 <= i < ps.len() implies posted(#[trigger] ps[i]) >= 0 by {
                assert(ps[i].bond_amount == bond.amount);
            }
            lemma_posted_sum_covers(ps, idx as int);
        }
        let amount = self.proposals[idx].bond_amount;
        let next_held = self.bond_held - amount;
        let mut np = self.proposals[idx].duplicate();
        np.state = ProposalState::Cancelled;
        np.bond_state = BondState::Refunded;
        let call = HostCall::Transfer {
            token: bond.token,
            from: Holder::This,
            to: Holder::At(proposer),
            amount,
        };
        let ghost npv = np@;
        self.proposals.set(idx, np);
        self.bond_held = next_held;
        proof {
            assert(proposal_views(self.proposals@) =~= proposal_views(old_ps).update(
                idx as int,
                npv,
            ));
            lemma_posted_sum_update(proposal_views(old_ps), idx as int, npv);
        }
        proof {
            lemma_net_inflow_one(call, bond.token);
        }
        Outcome::ok((), one_address(proposer), one_call(call))
    }

    /// A copy of proposal `proposal_id`.
    pub fn get_proposal(&self, proposal_id: u64) -> (r: Result<Proposal, ForgeError>)
        ensures
            match proposal_at(self@, proposal_id) {
                None => r == Err::<Proposal, ForgeError>(ForgeError::NotFound),
                Some(p) => r matches Ok(q) && q@ == p,
            },
    {
        match self.index_of(proposal_id) {
            None => Err(ForgeError::NotFound),
            Some(i) => Ok(self.proposals[i].duplicate()),
        }
    }

    /// Number of proposals created so far.
    pub fn get_proposal_count(&self) -> (n: u64)
        ensures
            n == self@.proposals.len(),
    {
        self.proposals.len() as u64
    }

    /// Proposals in id order: skip `offset`, take at most `limit`.
    pub fn get_proposals(&self, offset: u32, limit: u32) -> (r: Result<Vec<Proposal>, ForgeError>)
        ensures
            limit == 0 ==> r == Err::<Vec<Proposal>, ForgeError>(ForgeError::InvalidInput),
            limit != 0 ==> (r matches Ok(v) && ({
                let n = self@.proposals.len() as int;
                let lo = if offset < n { offset as int } else { n };
                let hi = if offset + limit < n { offset + limit } else { n };
                proposal_views(v@) == self@.proposals.subrange(lo, hi)
            })),
    {
        if limit == 0 {
            return Err(ForgeError::InvalidInput);
        }
        let total = self.proposals.len() as u64;
        let mut out: Vec<Proposal> = Vec::new();
        if offset as u64 >= total {
            proof {
                assert(proposal_views(out@) =~= self@.proposals.subrange(
                    total as int,
                    total as int,
                ));
            }
            return Ok(out);
        }
        let sum = offset as u64 + limit as u64;
        let end = (if sum < total {
            sum
        } else {
            total
        }) as usize;
        let start = offset as usize;
        let mut i = start;
        while i < end
            invariant
                start <= i <= end <= self.proposals@.len(),
                self@.proposals.len() == self.proposals@.len(),
                proposal_views(out@) == self@.proposals.subrange(start as int, i as int),
            decreases end - i,
        {
            let ghost before = out@;
            out.push(self.proposals[i].duplicate());
            proof {
                assert(proposal_views(out@) =~= proposal_views(before).push(
                    self.proposals@[i as int]@,
                ));
                assert(self@.proposals.subrange(start as int, i + 1) =~= self@.proposals.subrange(
                    start as int,
                    i as int,
                ).push(self@.proposals[i as int]));
            }
            i += 1;
        }
        Ok(out)
    }

    /// Whether `voter` has voted on `proposal_id`.
    pub fn has_voted(&self, proposal_id: u64, voter: Address) -> (r: Result<bool, ForgeError>)
        ensures
            r == match proposal_at(self@, proposal_id) {
                Some(_) => Ok::<bool, ForgeError>(self@.votes.contains((proposal_id, voter))),
                None => Err(ForgeError::NotFound),
            },
    {
        match self.index_of(proposal_id) {
            None => Err(ForgeError::NotFound),
            Some(_) => Ok(self.has_vote(proposal_id, &voter)),
        }
    }
}

proof fn lemma_vote_count_zero(vs: Seq<(u64, Address)>, id: u64)
    requires
        forall|i: int| 0 <= i < vs.len() ==> (#[trigger] vs[i]).0 != id,
    ensures
        vote_count(vs, id) == 0,
    decreases vs.len(),
{
    if vs.len() > 0 {
        assert(forall|i: int| 0 <= i < vs.drop_last().len() ==> vs.drop_last()[i] == vs[i]);
        lemma_vote_count_zero(vs.drop_last(), id);
    }
}


/// The tally counts each voter once, on the side it chose. On a valid
/// contract whose proposal `id` is active with voting still open at `now`,
/// cast the ballots `(voter, support)` in order. Each vote succeeds exactly
/// when its voter had not voted on `id` before, neither before the run nor
/// earlier in it; afterwards the "for" tally has grown by the first-time
/// voters who supported and the "against" tally by those who opposed,
/// nothing else of the proposal has changed, and `id` has a recorded vote
/// from exactly the voters from before and the voters of the run. The
/// bound on the votes is the size of the vector that records them.
pub proof fn lemma_vote_tally(d: DaoView, id: u64, ballots: Seq<(Address, bool)>, now: u64)
    requires
        dao_wf(d),
        proposal_at(d, id) matches Some(p) && p.state == ProposalState::Active && now
            < p.voting_ends,
        d.votes.len() + ballots.len() <= usize::MAX,
    ensures
        ({
            let p = d.proposals[id - 1];
            let e = cast_votes(d, id, ballots, now);
            &&& e.proposals.len() == d.proposals.len()
            &&& e.proposals[id - 1] == (ProposalView {
                for_votes: (p.for_votes + tally(d, id, ballots, true)) as i128,
                against_votes: (p.against_votes + tally(d, id, ballots, false)) as i128,
                ..p
            })
            &&& forall|v: Address| #[trigger]
                e.votes.contains((id, v)) <==> (d.votes.contains((id, v)) || voters(
                    ballots,
                ).contains(v))
            &&& forall|k: int|
                0 <= k < ballots.len() ==> (vote_ok(
                    cast_votes(d, id, ballots.take(k), now),
                    id,
                    (#[trigger] ballots[k]).0,
                    now,
                ) <==> !voted_before(d, id, ballots, k))
        }),
{
    lemma_vote_tally_run(d, id, ballots, now);
    assert forall|k: int| 0 <= k < ballots.len() implies (vote_ok(
        cast_votes(d, id, ballots.take(k), now),
        id,
        (#[trigger] ballots[k]).0,
        now,
    ) <==> !voted_before(d, id, ballots, k)) by {
        let pre = ballots.take(k);
        lemma_vote_tally_run(d, id, pre, now);
    }
}

proof fn lemma_vote_tally_run(d: DaoView, id: u64, ballots: Seq<(Address, bool)>, now: u64)
    requires
        dao_wf(d),
        proposal_at(d, id) matches Some(p) && p.state == ProposalState::Active && now
            < p.voting_ends,
        d.votes.len() + ballots.len() <= usize::MAX,
    ensures
        ({
            let p = d.proposals[id - 1];
            let e = cast_votes(d, id, ballots, now);
            &&& e.proposals.len() == d.proposals.len()
            &&& 0 <= tally(d, id, ballots, true)
            &&& 0 <= tally(d, id, ballots, false)
            &&& tally(d, id, ballots, true) + tally(d, id, ballots, false) <= ballots.len()
            &&& e.proposals[id - 1] == (ProposalView {
                for_votes: (p.for_votes + tally(d, id, ballots, true)) as i128,
                against_votes: (p.against_votes + tally(d, id, ballots, false)) as i128,
                ..p
            })
            &&& forall|v: Address| #[trigger]
                e.votes.contains((id, v)) <==> (d.votes.contains((id, v)) || voters(
                    ballots,
                ).contains(v))
        }),
    decreases ballots.len(),
{
    let p = d.proposals[id - 1];
    assert(p.for_votes + p.against_votes == vote_count(d.votes, p.proposal_id));
    lemma_vote_count_bound(d.votes, id);
    if ballots.len() > 0 {
        let b = ballots.drop_last();
        let (voter, support) = ballots.last();
        let n = ballots.len() - 1;
        lemma_vote_tally_run(d, id, b, now);
        let c = cast_votes(d, id, b, now);
        assert(voters(b) =~= voters(ballots.take(n)));
        assert(b =~= ballots.take(n));
        assert(voters(ballots) =~= voters(b).push(voter));
        assert(c.votes.contains((id, voter)) <==> voted_before(d, id, ballots, n));
        assert forall|v: Address| #[trigger] voters(ballots).contains(v) <==> (voters(b).contains(v)
            || v == voter) by {
            let vs = voters(ballots);
            if vs.contains(v) {
                let k = choose|k: int| 0 <= k < vs.len() && vs[k] == v;
                if k < n {
                    assert(voters(b)[k] == v);
                }
            }
            if voters(b).contains(v) {
                let k = choose|k: int| 0 <= k < voters(b).len() && voters(b)[k] == v;
                assert(vs[k] == v);
            }
            if v == voter {
                assert(vs[n] == v);
            }
        }
        if vote_ok(c, id, voter, now) {
            assert forall|v: Address| #[trigger] c.votes.push((id, voter)).contains((id, v)) <==> (
            c.votes.contains((id, v)) || v == voter) by {
                let vs = c.votes.push((id, voter));
                if vs.contains((id, v)) {
                    let k = choose|k: int| 0 <= k < vs.len() && vs[k] == (id, v);
                    if k < c.votes.len() {
                        assert(c.votes[k] == (id, v));
                    }
                }
                if c.votes.contains((id, v)) {
                    let k = choose|k: int| 0 <= k < c.votes.len() && c.votes[k] == (id, v);
                    assert(vs[k] == (id, v));
                }
                if v == voter {
                    assert(vs[c.votes.len() as int] == (id, v));
                }
            }
        }
    }
}


/// The custody always covers every bond still posted: on a valid contract
/// the running custody total is at least the bond of any proposal whose
/// bond is posted, so paying that bond out leaves a total that is not
/// negative.
pub proof fn lemma_custody_covers_posted_bond(d: DaoView, id: u64)
    requires
        dao_wf(d),
        proposal_at(d, id) matches Some(p) && p.bond_state == BondState::Posted,
    ensures
        d.bond_held >= d.proposals[id - 1].bond_amount > 0,
{
    assert forall|i: int| 0 <= i < d.proposals.len() implies posted(#[trigger] d.proposals[i])
        >= 0 by {
        assert(d.bond matches Some(c) && d.proposals[i].bond_amount == c.amount);
    }
    lemma_posted_sum_covers(d.proposals, id - 1);
    assert(d.bond matches Some(c) && d.proposals[id - 1].bond_amount == c.amount);
}

} // verus!
