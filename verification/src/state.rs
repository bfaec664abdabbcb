//! The replicated state and how submissions change it.
//!
//! Money is whole micro-units. A submission escrows a stake; the delta-K engine
//! judges it; the stake comes back with a reward, or part of it is slashed to the
//! treasury. Given the same genesis, blocks and engine, every node computes the
//! same state.

use std::collections::BTreeMap;

use vstd::prelude::*;

use crate::bytes;
use crate::bytes::{copy_vec, zero_bytes};
use crate::codec;
use crate::crypto;
use crate::graph;
use crate::graph::{
    compute_delta_k, Assessment, AssessmentView, CognitiveGraph, GraphNode, Judge, Submission,
};
use crate::ieee;
use crate::ieee::{exceeds_zero, scores_high, step_reputation, within_unit_interval, ReputationStep};
use crate::ledger;
use crate::tx;
use crate::tx::{Block, BlockView, Review, SubmissionTx, TxView};
use crate::validator;
use crate::validator::{Validator, ValidatorSet};
use crate::{Digest, Embedding, PubKey};

verus! {

/// An account: its key, what it holds, and its history.
#[derive(Clone, Copy, Debug, PartialEq, Eq)]
pub struct Account {
    pub pubkey: PubKey,
    pub balance: u64,
    pub staked_total: u64,
    pub earned_total: u64,
    pub slashed_total: u64,
    pub submissions: u64,
    pub accepted: u64,
}

/// An account that has done nothing yet.
pub open spec fn fresh_account(pubkey: PubKey, balance: u64) -> Account {
    Account {
        pubkey,
        balance,
        staked_total: 0,
        earned_total: 0,
        slashed_total: 0,
        submissions: 0,
        accepted: 0,
    }
}

impl Account {
    /// An account that has done nothing yet.
    pub fn new(pubkey: PubKey, balance: u64) -> (r: Account)
        ensures
            r == fresh_account(pubkey, balance),
    {
        Account {
            pubkey,
            balance,
            staked_total: 0,
            earned_total: 0,
            slashed_total: 0,
            submissions: 0,
            accepted: 0,
        }
    }
}

impl Default for Account {
    fn default() -> (r: Account)
        ensures
            r == fresh_account(bytes::zeros(), 0),
    {
        Account::new(zero_bytes(), 0)
    }
}

/// The full replicated state.
pub struct ChainState {
    pub accounts: BTreeMap<u64, Account>,
    /// The bits of the reputation of everyone who may score submissions.
    pub reviewers: BTreeMap<u64, u32>,
    pub graph: CognitiveGraph,
    pub validators: ValidatorSet,
    /// Micro-units minted per unit of delta-K.
    pub base_emission_micro: u64,
    /// The part of the stake that a rejection slashes, in basis points.
    pub slash_bps: u32,
    /// All micro-units in existence.
    pub supply: u64,
    /// Slashed stake: held, not destroyed.
    pub treasury: u64,
    pub height: u64,
    /// The bits of the present time in days.
    pub now_days: u32,
}

#[verifier::ext_equal]
pub struct StateView {
    pub accounts: Map<u64, Account>,
    pub reviewers: Map<u64, u32>,
    pub graph: Seq<GraphNode>,
    pub validators: Seq<Validator>,
    pub base_emission_micro: u64,
    pub slash_bps: u32,
    pub supply: u64,
    pub treasury: u64,
    pub height: u64,
    pub now_days: u32,
}

impl View for ChainState {
    type V = StateView;

    open spec fn view(&self) -> StateView {
        StateView {
            accounts: self.accounts@,
            reviewers: self.reviewers@,
            graph: self.graph@,
            validators: self.validators@,
            base_emission_micro: self.base_emission_micro,
            slash_bps: self.slash_bps,
            supply: self.supply,
            treasury: self.treasury,
            height: self.height,
            now_days: self.now_days,
        }
    }
}

impl Clone for ChainState {
    fn clone(&self) -> (r: ChainState)
        ensures
            r@ == self@,
    {
        ChainState {
            accounts: self.accounts.clone(),
            reviewers: self.reviewers.clone(),
            graph: self.graph.clone(),
            validators: self.validators.clone(),
            base_emission_micro: self.base_emission_micro,
            slash_bps: self.slash_bps,
            supply: self.supply,
            treasury: self.treasury,
            height: self.height,
            now_days: self.now_days,
        }
    }
}

/// What a chain starts from.
#[derive(Debug)]
pub struct Genesis {
    /// Id, endowment and public key of each account.
    pub accounts: Vec<(u64, u64, PubKey)>,
    /// Id and initial reputation bits of everyone who may score submissions.
    pub reviewers: Vec<(u64, u32)>,
    /// Knowledge that the graph starts with.
    pub seed_nodes: Vec<(Embedding, u32)>,
    pub base_emission_micro: u64,
    pub slash_bps: u32,
    pub timestamp_days: u32,
    /// Id, public key and voting power of each validator.
    pub validators: Vec<(u64, PubKey, u64)>,
}

#[verifier::ext_equal]
pub struct GenesisView {
    pub accounts: Seq<(u64, u64, PubKey)>,
    pub reviewers: Seq<(u64, u32)>,
    pub seed_nodes: Seq<(Embedding, u32)>,
    pub base_emission_micro: u64,
    pub slash_bps: u32,
    pub timestamp_days: u32,
    pub validators: Seq<(u64, PubKey, u64)>,
}

impl View for Genesis {
    type V = GenesisView;

    open spec fn view(&self) -> GenesisView {
        GenesisView {
            accounts: self.accounts@,
            reviewers: self.reviewers@,
            seed_nodes: self.seed_nodes@,
            base_emission_micro: self.base_emission_micro,
            slash_bps: self.slash_bps,
            timestamp_days: self.timestamp_days,
            validators: self.validators@,
        }
    }
}

impl Clone for Genesis {
    fn clone(&self) -> (r: Genesis)
        ensures
            r@ == self@,
    {
        Genesis {
            accounts: copy_vec(&self.accounts),
            reviewers: copy_vec(&self.reviewers),
            seed_nodes: copy_vec(&self.seed_nodes),
            base_emission_micro: self.base_emission_micro,
            slash_bps: self.slash_bps,
            timestamp_days: self.timestamp_days,
            validators: copy_vec(&self.validators),
        }
    }
}

/// Why a transaction or a block was refused.
#[derive(Clone, Copy, Debug, PartialEq, Eq)]
pub enum ChainError {
    BadHeight { expected: u64, got: u64 },
    BadPrevHash,
    UnknownAccount(u64),
    UnknownReviewer(u64),
    InsufficientBalance { account: u64, need: u64, have: u64 },
    BadScore { reviewer: u64, score: u32 },
    EmptyReviews(u64),
    BadSignature(u64),
    /// A total would leave the range of a 64-bit word.
    Overflow,
}

/// What became of one submission.
#[derive(Clone, Copy, Debug, PartialEq, Eq)]
pub struct TxReceipt {
    pub author: u64,
    pub accepted: bool,
    pub delta_k: u32,
    pub minted: u64,
    pub slashed: u64,
}

/// What became of one block.
#[derive(Debug)]
pub struct BlockReceipt {
    pub height: u64,
    pub hash: Digest,
    pub minted: u64,
    pub slashed: u64,
    pub accepted: usize,
    pub rejected: usize,
    pub txs: Vec<TxReceipt>,
}

#[verifier::ext_equal]
pub struct ReceiptView {
    pub height: u64,
    pub hash: Digest,
    pub minted: u64,
    pub slashed: u64,
    pub accepted: usize,
    pub rejected: usize,
    pub txs: Seq<TxReceipt>,
}

impl View for BlockReceipt {
    type V = ReceiptView;

    open spec fn view(&self) -> ReceiptView {
        ReceiptView {
            height: self.height,
            hash: self.hash,
            minted: self.minted,
            slashed: self.slashed,
            accepted: self.accepted,
            rejected: self.rejected,
            txs: self.txs@,
        }
    }
}

// --- genesis ------------------------------------------------------------------

/// The accounts of a genesis; of two with one id the later counts.
pub open spec fn endowed(list: Seq<(u64, u64, PubKey)>) -> Map<u64, Account>
    decreases list.len(),
{
    if list.len() == 0 {
        Map::empty()
    } else {
        endowed(list.drop_last()).insert(
            list.last().0,
            fresh_account(list.last().2, list.last().1),
        )
    }
}

/// What the accounts of a genesis hold together: an endowment that a later one
/// replaces does not count.
pub open spec fn endowment(list: Seq<(u64, u64, PubKey)>) -> nat {
    ledger::held(endowed(list))
}

/// The initial reputations; of two with one id the later counts.
pub open spec fn standings(list: Seq<(u64, u32)>) -> Map<u64, u32>
    decreases list.len(),
{
    if list.len() == 0 {
        Map::empty()
    } else {
        standings(list.drop_last()).insert(list.last().0, list.last().1)
    }
}

/// The graph that holds the seed nodes.
pub open spec fn seeded(list: Seq<(Embedding, u32)>) -> Seq<GraphNode> {
    Seq::new(
        list.len(),
        |i: int| GraphNode { node_id: i as u64, embedding: list[i].0, domain: list[i].1 },
    )
}

/// The validators that a genesis lists.
pub open spec fn listed_validators(list: Seq<(u64, PubKey, u64)>) -> Seq<Validator> {
    list.map_values(
        |v: (u64, PubKey, u64)| Validator { id: v.0, pubkey: v.1, power: v.2 },
    )
}

/// Whether the summed power of the listed validators fits a 64-bit word.
pub open spec fn power_fits(g: GenesisView) -> bool {
    validator::power_sum(listed_validators(g.validators)) <= u64::MAX
}

/// The state that a genesis describes.
pub open spec fn genesis_state(g: GenesisView) -> StateView {
    StateView {
        accounts: endowed(g.accounts),
        reviewers: standings(g.reviewers),
        graph: seeded(g.seed_nodes),
        validators: validator::set_of(listed_validators(g.validators)),
        base_emission_micro: g.base_emission_micro,
        slash_bps: g.slash_bps,
        supply: if endowment(g.accounts) > u64::MAX {
            u64::MAX
        } else {
            endowment(g.accounts) as u64
        },
        treasury: 0,
        height: 0,
        now_days: g.timestamp_days,
    }
}

/// The block that stands for a genesis: height zero, no predecessor, no
/// transactions.
pub open spec fn genesis_block(g: GenesisView) -> BlockView {
    BlockView {
        height: 0,
        prev_hash: bytes::zeros(),
        timestamp_days: g.timestamp_days,
        txs: Seq::empty(),
    }
}

// --- judging one submission ---------------------------------------------------

/// What is wrong with one score, if anything.
pub open spec fn review_fault(r: Review, known: Map<u64, u32>) -> Option<ChainError> {
    if !ieee::in_unit_interval(r.score) {
        Some(ChainError::BadScore { reviewer: r.reviewer, score: r.score })
    } else if !known.contains_key(r.reviewer) {
        Some(ChainError::UnknownReviewer(r.reviewer))
    } else {
        None
    }
}

/// What is wrong with the first bad score, if any is bad.
pub open spec fn reviews_fault(rs: Seq<Review>, known: Map<u64, u32>) -> Option<ChainError>
    decreases rs.len(),
{
    if rs.len() == 0 {
        None
    } else if let Some(e) = review_fault(rs[0], known) {
        Some(e)
    } else {
        reviews_fault(rs.skip(1), known)
    }
}

/// The checks that need neither the engine nor a change of state: scores in range
/// and by known assessors, a known author, an authentic signature, a covered stake.
pub open spec fn check_tx(st: StateView, t: TxView) -> Result<(), ChainError> {
    if t.reviews.len() == 0 {
        Err(ChainError::EmptyReviews(t.author))
    } else if let Some(e) = reviews_fault(t.reviews, st.reviewers) {
        Err(e)
    } else if !st.accounts.contains_key(t.author) {
        Err(ChainError::UnknownAccount(t.author))
    } else {
        let a = st.accounts[t.author];
        if !crypto::authentic(a.pubkey, codec::signing_bytes(t), t.signature) {
            Err(ChainError::BadSignature(t.author))
        } else if a.balance < t.stake {
            Err(
                ChainError::InsufficientBalance {
                    account: t.author,
                    need: t.stake,
                    have: a.balance,
                },
            )
        } else {
            Ok(())
        }
    }
}

/// Each score with the reputation of the one who gave it.
pub open spec fn weighed(rs: Seq<Review>, known: Map<u64, u32>) -> Seq<(u32, u32)> {
    rs.map_values(|r: Review| (known[r.reviewer], r.score))
}

/// What the engine is asked about a submission.
pub open spec fn question(st: StateView, t: TxView) -> AssessmentView {
    AssessmentView {
        submission: Submission {
            embedding: t.embedding,
            domain: t.domain,
            timestamp_days: t.timestamp_days,
        },
        graph: st.graph,
        reviews: weighed(t.reviews, st.reviewers),
        replications: (t.repl_success, t.repl_total),
        now_days: st.now_days,
    }
}

/// How a decision moves the reputation of one who gave `score`.
pub open spec fn step_for(accepted: bool, score: u32) -> ReputationStep {
    if accepted {
        if ieee::is_high_score(score) {
            ReputationStep::ConfirmedHigh
        } else {
            ReputationStep::MissedLow
        }
    } else if ieee::is_high_score(score) {
        ReputationStep::MisledHigh
    } else {
        ReputationStep::ConfirmedLow
    }
}

/// Reputations after a decision, one score after another.
pub open spec fn restanding(
    known: Map<u64, u32>,
    rs: Seq<Review>,
    accepted: bool,
) -> Map<u64, u32>
    decreases rs.len(),
{
    if rs.len() == 0 {
        known
    } else {
        let m = restanding(known, rs.drop_last(), accepted);
        let r = rs.last();
        if m.contains_key(r.reviewer) {
            m.insert(r.reviewer, ieee::stepped(m[r.reviewer], step_for(accepted, r.score)))
        } else {
            m
        }
    }
}

/// The reward for a delta-K of `dk`.
pub open spec fn reward_for(st: StateView, dk: u32) -> nat {
    ieee::scaled_reward(st.base_emission_micro, dk)
}

/// The part of a stake that a rejection slashes.
pub open spec fn slash_for(st: StateView, t: TxView) -> nat {
    ((t.stake * st.slash_bps / 10_000) % 0x1_0000_0000_0000_0000) as nat
}

/// Whether every total stays in range when the submission is settled at `dk`.
pub open spec fn fits(st: StateView, t: TxView, dk: u32) -> bool {
    let a = st.accounts[t.author];
    &&& a.staked_total + t.stake <= u64::MAX
    &&& a.submissions < u64::MAX
    &&& if ieee::is_positive(dk) {
        let reward = reward_for(st, dk);
        &&& a.balance + reward <= u64::MAX
        &&& a.earned_total + reward <= u64::MAX
        &&& a.accepted < u64::MAX
        &&& st.supply + reward <= u64::MAX
    } else {
        let slash = slash_for(st, t);
        &&& slash <= t.stake
        &&& a.slashed_total + slash <= u64::MAX
        &&& st.treasury + slash <= u64::MAX
    }
}

/// The state and receipt after a submission is accepted: the escrow returns with a
/// reward, which is new supply, and the knowledge joins the graph.
pub open spec fn accepted(st: StateView, t: TxView, dk: u32) -> (StateView, TxReceipt) {
    let a = st.accounts[t.author];
    let reward = reward_for(st, dk);
    (
        StateView {
            accounts: st.accounts.insert(
                t.author,
                Account {
                    balance: (a.balance + reward) as u64,
                    staked_total: (a.staked_total + t.stake) as u64,
                    earned_total: (a.earned_total + reward) as u64,
                    submissions: (a.submissions + 1) as u64,
                    accepted: (a.accepted + 1) as u64,
                    ..a
                },
            ),
            reviewers: restanding(st.reviewers, t.reviews, true),
            graph: graph::grown(st.graph, t.embedding, t.domain),
            supply: (st.supply + reward) as u64,
            ..st
        },
        TxReceipt {
            author: t.author,
            accepted: true,
            delta_k: dk,
            minted: reward as u64,
            slashed: 0,
        },
    )
}

/// The state and receipt after a submission is rejected: part of the escrow moves
/// to the treasury and the rest returns. The supply stays.
pub open spec fn rejected(st: StateView, t: TxView, dk: u32) -> (StateView, TxReceipt) {
    let a = st.accounts[t.author];
    let slash = slash_for(st, t);
    (
        StateView {
            accounts: st.accounts.insert(
                t.author,
                Account {
                    balance: (a.balance - slash) as u64,
                    staked_total: (a.staked_total + t.stake) as u64,
                    slashed_total: (a.slashed_total + slash) as u64,
                    submissions: (a.submissions + 1) as u64,
                    ..a
                },
            ),
            reviewers: restanding(st.reviewers, t.reviews, false),
            treasury: (st.treasury + slash) as u64,
            ..st
        },
        TxReceipt {
            author: t.author,
            accepted: false,
            delta_k: dk,
            minted: 0,
            slashed: slash as u64,
        },
    )
}

/// A checked submission settled at `dk`.
pub open spec fn settled(st: StateView, t: TxView, dk: u32) -> Result<
    (StateView, TxReceipt),
    ChainError,
> {
    if !fits(st, t, dk) {
        Err(ChainError::Overflow)
    } else if ieee::is_positive(dk) {
        Ok(accepted(st, t, dk))
    } else {
        Ok(rejected(st, t, dk))
    }
}

/// One submission checked, judged and settled.
pub open spec fn applied_tx(judge: Judge, st: StateView, t: TxView) -> Result<
    (StateView, TxReceipt),
    ChainError,
> {
    match check_tx(st, t) {
        Err(e) => Err(e),
        Ok(()) => settled(st, t, judge(question(st, t))),
    }
}

/// Submissions one after another; the first that fails decides the error.
pub open spec fn applied_txs(judge: Judge, st: StateView, txs: Seq<TxView>) -> Result<
    (StateView, Seq<TxReceipt>),
    ChainError,
>
    decreases txs.len(),
{
    if txs.len() == 0 {
        Ok((st, Seq::empty()))
    } else {
        match applied_txs(judge, st, txs.drop_last()) {
            Err(e) => Err(e),
            Ok((before, receipts)) => match applied_tx(judge, before, txs.last()) {
                Err(e) => Err(e),
                Ok((after, r)) => Ok((after, receipts.push(r))),
            },
        }
    }
}

/// What all receipts minted together.
pub open spec fn minted_sum(rs: Seq<TxReceipt>) -> nat
    decreases rs.len(),
{
    if rs.len() == 0 {
        0
    } else {
        minted_sum(rs.drop_last()) + rs.last().minted as nat
    }
}

/// What all receipts slashed together.
pub open spec fn slashed_sum(rs: Seq<TxReceipt>) -> nat
    decreases rs.len(),
{
    if rs.len() == 0 {
        0
    } else {
        slashed_sum(rs.drop_last()) + rs.last().slashed as nat
    }
}

/// How many receipts are acceptances.
pub open spec fn accepted_count(rs: Seq<TxReceipt>) -> nat
    decreases rs.len(),
{
    if rs.len() == 0 {
        0
    } else {
        accepted_count(rs.drop_last()) + if rs.last().accepted {
            1nat
        } else {
            0nat
        }
    }
}

/// The receipt of a block whose submissions had the given receipts.
pub open spec fn block_receipt(b: BlockView, rs: Seq<TxReceipt>) -> ReceiptView {
    ReceiptView {
        height: b.height,
        hash: tx::block_hash(b),
        minted: minted_sum(rs) as u64,
        slashed: slashed_sum(rs) as u64,
        accepted: accepted_count(rs) as usize,
        rejected: (rs.len() - accepted_count(rs)) as usize,
        txs: rs,
    }
}

/// A block applied: it must stand one above the present height, and each of its
/// submissions must apply.
pub open spec fn applied_block(judge: Judge, st: StateView, b: BlockView) -> Result<
    (StateView, ReceiptView),
    ChainError,
> {
    if st.height == u64::MAX {
        Err(ChainError::Overflow)
    } else if b.height != st.height + 1 {
        Err(ChainError::BadHeight { expected: (st.height + 1) as u64, got: b.height })
    } else {
        match applied_txs(judge, StateView { now_days: b.timestamp_days, ..st }, b.txs) {
            Err(e) => Err(e),
            Ok((after, rs)) => Ok(
                (StateView { height: b.height, ..after }, block_receipt(b, rs)),
            ),
        }
    }
}

/// The state that submissions leave, where one of them may fail: those before it
/// have been applied, and nothing after it.
pub open spec fn left_by_txs(judge: Judge, st: StateView, txs: Seq<TxView>) -> StateView
    decreases txs.len(),
{
    match applied_txs(judge, st, txs) {
        Ok((after, _)) => after,
        Err(_) => if txs.len() == 0 {
            st
        } else {
            left_by_txs(judge, st, txs.drop_last())
        },
    }
}

/// The state that a block leaves where it fails: its time has been set and the
/// submissions before the failing one applied, unless its height was refused.
pub open spec fn left_by_block(judge: Judge, st: StateView, b: BlockView) -> StateView {
    if st.height == u64::MAX || b.height != st.height + 1 {
        st
    } else {
        left_by_txs(judge, StateView { now_days: b.timestamp_days, ..st }, b.txs)
    }
}

// --- lemmas -------------------------------------------------------------------

/// Totals of receipts grow one receipt at a time.
proof fn lemma_receipts_push(rs: Seq<TxReceipt>, r: TxReceipt)
    ensures
        minted_sum(rs.push(r)) == minted_sum(rs) + r.minted,
        slashed_sum(rs.push(r)) == slashed_sum(rs) + r.slashed,
        accepted_count(rs.push(r)) == accepted_count(rs) + if r.accepted {
            1nat
        } else {
            0nat
        },
{
    assert(rs.push(r).drop_last() =~= rs);
}

/// What submissions minted and slashed is what the supply and the treasury gained;
/// there is one receipt for each; nothing else about the chain changed.
pub proof fn lemma_applied_txs(judge: Judge, st: StateView, txs: Seq<TxView>)
    ensures
        applied_txs(judge, st, txs) matches Ok((after, rs)) ==> {
            &&& after.supply == st.supply + minted_sum(rs)
            &&& after.treasury == st.treasury + slashed_sum(rs)
            &&& rs.len() == txs.len()
            &&& accepted_count(rs) <= rs.len()
            &&& after.height == st.height
            &&& after.now_days == st.now_days
            &&& after.validators == st.validators
            &&& after.base_emission_micro == st.base_emission_micro
            &&& after.slash_bps == st.slash_bps
        },
    decreases txs.len(),
{
    if txs.len() > 0 {
        lemma_applied_txs(judge, st, txs.drop_last());
        if let Ok((before, rs)) = applied_txs(judge, st, txs.drop_last()) {
            if let Ok((after, r)) = applied_tx(judge, before, txs.last()) {
                lemma_receipts_push(rs, r);
            }
        }
    }
}

/// A failure among the first submissions is the failure of all.
pub proof fn lemma_applied_txs_prefix(judge: Judge, st: StateView, txs: Seq<TxView>, i: int)
    requires
        0 <= i <= txs.len(),
        applied_txs(judge, st, txs.take(i)) is Err,
    ensures
        applied_txs(judge, st, txs) is Err,
        applied_txs(judge, st, txs)->Err_0 == applied_txs(judge, st, txs.take(i))->Err_0,
        left_by_txs(judge, st, txs) == left_by_txs(judge, st, txs.take(i)),
    decreases txs.len() - i,
{
    if i == txs.len() {
        assert(txs.take(i) =~= txs);
    } else {
        assert(txs.take(i + 1).drop_last() =~= txs.take(i));
        lemma_applied_txs_prefix(judge, st, txs, i + 1);
        reveal_with_fuel(left_by_txs, 2);
    }
}

/// Submissions may be applied from the front: the first, then the rest.
pub proof fn lemma_applied_txs_front(judge: Judge, st: StateView, first: TxView, rest: Seq<TxView>)
    ensures
        applied_txs(judge, st, seq![first] + rest) == match applied_tx(judge, st, first) {
            Err(e) => Err(e),
            Ok((after, r)) => match applied_txs(judge, after, rest) {
                Err(e) => Err(e),
                Ok((end, rs)) => Ok((end, seq![r] + rs)),
            },
        },
    decreases rest.len(),
{
    let all = seq![first] + rest;
    if rest.len() == 0 {
        assert(all.drop_last() =~= Seq::<TxView>::empty());
        reveal_with_fuel(applied_txs, 2);
        if let Ok((_, r)) = applied_tx(judge, st, first) {
            assert(Seq::<TxReceipt>::empty().push(r) =~= seq![r] + Seq::<TxReceipt>::empty());
        }
    } else {
        assert(all.drop_last() =~= seq![first] + rest.drop_last());
        assert(all.last() == rest.last());
        lemma_applied_txs_front(judge, st, first, rest.drop_last());
        if let Ok((after, r)) = applied_tx(judge, st, first) {
            if let Ok((mid, rs)) = applied_txs(judge, after, rest.drop_last()) {
                if let Ok((_, x)) = applied_tx(judge, mid, rest.last()) {
                    assert((seq![r] + rs).push(x) =~= seq![r] + rs.push(x));
                }
            }
        }
    }
}

// --- the machine --------------------------------------------------------------

fn endow(list: &Vec<(u64, u64, PubKey)>) -> (r: (BTreeMap<u64, Account>, u64))
    ensures
        r.0@ == endowed(list@),
        r.1 == if endowment(list@) > u64::MAX {
            u64::MAX as nat
        } else {
            endowment(list@)
        },
{
    let mut accounts: BTreeMap<u64, Account> = BTreeMap::new();
    let mut total: u128 = 0;
    let mut i: usize = 0;
    assert(list@.take(0) =~= Seq::empty());
    assert(accounts@.dom() =~= Set::empty());
    while i < list.len()
        invariant
            i <= list.len(),
            accounts@ == endowed(list@.take(i as int)),
            accounts@.dom().finite(),
            total == ledger::held(accounts@),
            total <= i * 0xffff_ffff_ffff_ffff,
        decreases list.len() - i,
    {
        assert(list@.take(i + 1).drop_last() =~= list@.take(i as int));
        let (id, amount, pubkey) = list[i];
        let replaced: u64 = match accounts.get(&id) {
            Some(a) => a.balance,
            None => 0,
        };
        proof {
            let m = accounts@;
            ledger::lemma_held_insert(m, id, fresh_account(pubkey, amount));
            if m.contains_key(id) {
                ledger::lemma_held_remove(m, id);
            } else {
                assert(m.remove(id) =~= m);
            }
            assert(i * 0xffff_ffff_ffff_ffff <= 0xffff_ffff_ffff_fffe * 0xffff_ffff_ffff_ffff)
                by (nonlinear_arith)
                requires
                    0 <= i <= 0xffff_ffff_ffff_fffe,
            ;
        }
        total = total - replaced as u128 + amount as u128;
        accounts.insert(id, Account::new(pubkey, amount));
        i += 1;
    }
    assert(list@.take(i as int) =~= list@);
    let supply: u64 = if total > u64::MAX as u128 {
        u64::MAX
    } else {
        total as u64
    };
    (accounts, supply)
}

fn initial_standings(list: &Vec<(u64, u32)>) -> (r: BTreeMap<u64, u32>)
    ensures
        r@ == standings(list@),
{
    let mut m: BTreeMap<u64, u32> = BTreeMap::new();
    let mut i: usize = 0;
    assert(list@.take(0) =~= Seq::empty());
    while i < list.len()
        invariant
            i <= list.len(),
            m@ == standings(list@.take(i as int)),
        decreases list.len() - i,
    {
        assert(list@.take(i + 1).drop_last() =~= list@.take(i as int));
        m.insert(list[i].0, list[i].1);
        i += 1;
    }
    assert(list@.take(i as int) =~= list@);
    m
}

fn seed_graph(list: &Vec<(Embedding, u32)>) -> (r: CognitiveGraph)
    ensures
        r@ == seeded(list@),
{
    let mut g = CognitiveGraph::new();
    let mut i: usize = 0;
    while i < list.len()
        invariant
            i <= list.len(),
            g@ == seeded(list@).take(i as int),
        decreases list.len() - i,
    {
        g.add(list[i].0, list[i].1);
        assert(seeded(list@).take(i + 1) =~= seeded(list@).take(i as int).push(
            seeded(list@)[i as int],
        ));
        i += 1;
    }
    assert(seeded(list@).take(i as int) =~= seeded(list@));
    g
}

/// The validator set that a genesis lists.
pub fn genesis_validators(g: &Genesis) -> (r: ValidatorSet)
    requires
        power_fits(g@),
    ensures
        r@ == validator::set_of(listed_validators(g@.validators)),
{
    let mut list: Vec<Validator> = Vec::new();
    let ghost all = listed_validators(g@.validators);
    let mut i: usize = 0;
    while i < g.validators.len()
        invariant
            i <= g.validators.len(),
            all == listed_validators(g@.validators),
            list@ == all.take(i as int),
        decreases g.validators.len() - i,
    {
        let (id, pubkey, power) = g.validators[i];
        list.push(Validator { id, pubkey, power });
        assert(all.take(i + 1) =~= all.take(i as int).push(all[i as int]));
        i += 1;
    }
    assert(all.take(i as int) =~= all);
    ValidatorSet::new(list)
}

impl ChainState {
    /// The state that a genesis describes, and the hash of the block that stands for
    /// it, from which every node starts.
    pub fn genesis(g: Genesis) -> (r: (ChainState, Digest))
        requires
            power_fits(g@),
        ensures
            r.0@ == genesis_state(g@),
            r.1 == tx::block_hash(genesis_block(g@)),
    {
        let (accounts, supply) = endow(&g.accounts);
        let state = ChainState {
            accounts,
            reviewers: initial_standings(&g.reviewers),
            graph: seed_graph(&g.seed_nodes),
            validators: genesis_validators(&g),
            base_emission_micro: g.base_emission_micro,
            slash_bps: g.slash_bps,
            supply,
            treasury: 0,
            height: 0,
            now_days: g.timestamp_days,
        };
        let b = Block {
            height: 0,
            prev_hash: zero_bytes(),
            timestamp_days: g.timestamp_days,
            txs: Vec::new(),
        };
        assert(b@.txs =~= Seq::<TxView>::empty());
        (state, b.hash())
    }

    fn check_reviews(&self, rs: &Vec<Review>) -> (r: Option<ChainError>)
        ensures
            r == reviews_fault(rs@, self@.reviewers),
    {
        let mut i: usize = 0;
        assert(rs@.skip(0) =~= rs@);
        while i < rs.len()
            invariant
                i <= rs.len(),
                reviews_fault(rs@.skip(i as int), self@.reviewers) == reviews_fault(
                    rs@,
                    self@.reviewers,
                ),
            decreases rs.len() - i,
        {
            assert(rs@.skip(i as int).skip(1) =~= rs@.skip(i + 1));
            if !within_unit_interval(rs[i].score) {
                return Some(
                    ChainError::BadScore { reviewer: rs[i].reviewer, score: rs[i].score },
                );
            }
            if !self.reviewers.contains_key(&rs[i].reviewer) {
                return Some(ChainError::UnknownReviewer(rs[i].reviewer));
            }
            i += 1;
        }
        None
    }

    /// Checks a submission as far as that needs neither the engine nor a change of
    /// state. Pools admit by this check, and [`ChainState::apply_tx`] runs it first.
    pub fn validate_tx(&self, t: &SubmissionTx) -> (r: Result<(), ChainError>)
        ensures
            r == check_tx(self@, t@),
    {
        if t.reviews.len() == 0 {
            return Err(ChainError::EmptyReviews(t.author));
        }
        if let Some(e) = self.check_reviews(&t.reviews) {
            return Err(e);
        }
        match self.accounts.get(&t.author) {
            None => Err(ChainError::UnknownAccount(t.author)),
            Some(a) => {
                let bytes = codec::tx_signing_bytes(t);
                if !crypto::verify(&a.pubkey, bytes.as_slice(), &t.signature) {
                    return Err(ChainError::BadSignature(t.author));
                }
                if a.balance < t.stake {
                    return Err(
                        ChainError::InsufficientBalance {
                            account: t.author,
                            need: t.stake,
                            have: a.balance,
                        },
                    );
                }
                Ok(())
            },
        }
    }

    fn weigh(&self, rs: &Vec<Review>) -> (r: Vec<(u32, u32)>)
        requires
            reviews_fault(rs@, self@.reviewers) is None,
        ensures
            r@ == weighed(rs@, self@.reviewers),
    {
        let mut out: Vec<(u32, u32)> = Vec::new();
        let ghost all = weighed(rs@, self@.reviewers);
        let mut i: usize = 0;
        assert(rs@.skip(0) =~= rs@);
        while i < rs.len()
            invariant
                i <= rs.len(),
                all == weighed(rs@, self@.reviewers),
                out@ == all.take(i as int),
                reviews_fault(rs@.skip(i as int), self@.reviewers) is None,
            decreases rs.len() - i,
        {
            assert(rs@.skip(i as int).skip(1) =~= rs@.skip(i + 1));
            match self.reviewers.get(&rs[i].reviewer) {
                Some(rep) => {
                    out.push((*rep, rs[i].score));
                },
                None => {
                    assert(false);
                },
            }
            assert(all.take(i + 1) =~= all.take(i as int).push(all[i as int]));
            i += 1;
        }
        assert(all.take(i as int) =~= all);
        out
    }

    /// Moves the reputation of each assessor by the outcome: on chain only the
    /// finalized decision is known, so those who scored an accepted item high gain
    /// and those who scored a rejected item high lose.
    fn reward_reviewers(&mut self, rs: &Vec<Review>, accepted: bool)
        ensures
            final(self)@ == (StateView {
                reviewers: restanding(old(self)@.reviewers, rs@, accepted),
                ..old(self)@
            }),
    {
        let mut i: usize = 0;
        assert(rs@.take(0) =~= Seq::<Review>::empty());
        while i < rs.len()
            invariant
                i <= rs.len(),
                self@ == (StateView {
                    reviewers: restanding(old(self)@.reviewers, rs@.take(i as int), accepted),
                    ..old(self)@
                }),
            decreases rs.len() - i,
        {
            assert(rs@.take(i + 1).drop_last() =~= rs@.take(i as int));
            let found: Option<u32> = match self.reviewers.get(&rs[i].reviewer) {
                Some(rep) => Some(*rep),
                None => None,
            };
            if let Some(rep) = found {
                let high = scores_high(rs[i].score);
                let step = if accepted {
                    if high {
                        ReputationStep::ConfirmedHigh
                    } else {
                        ReputationStep::MissedLow
                    }
                } else if high {
                    ReputationStep::MisledHigh
                } else {
                    ReputationStep::ConfirmedLow
                };
                let moved: u32 = step_reputation(rep, step);
                self.reviewers.insert(rs[i].reviewer, moved);
            }
            i += 1;
        }
        assert(rs@.take(i as int) =~= rs@);
    }

    /// Settles a checked submission at a given delta-K: mints and returns the escrow
    /// where it is positive, slashes to the treasury where it is not. On an error
    /// nothing has changed.
    pub fn settle_tx(&mut self, t: &SubmissionTx, dk: u32) -> (r: Result<TxReceipt, ChainError>)
        requires
            old(self)@.accounts.contains_key(t@.author),
            old(self)@.accounts[t@.author].balance >= t@.stake,
        ensures
            match settled(old(self)@, t@, dk) {
                Ok((after, receipt)) => r == Ok::<TxReceipt, ChainError>(receipt) && final(self)@
                    == after,
                Err(e) => r == Err::<TxReceipt, ChainError>(e) && final(self)@ == old(self)@,
            },
    {
        let a: Account = match self.accounts.get(&t.author) {
            Some(a) => *a,
            None => {
                return Err(ChainError::UnknownAccount(t.author));
            },
        };
        if t.stake > u64::MAX - a.staked_total || a.submissions == u64::MAX {
            return Err(ChainError::Overflow);
        }
        if exceeds_zero(dk) {
            let reward: u64 = ieee::reward(self.base_emission_micro, dk);
            if reward > u64::MAX - a.balance || reward > u64::MAX - a.earned_total || a.accepted
                == u64::MAX || reward > u64::MAX - self.supply {
                return Err(ChainError::Overflow);
            }
            self.accounts.insert(
                t.author,
                Account {
                    pubkey: a.pubkey,
                    balance: a.balance + reward,
                    staked_total: a.staked_total + t.stake,
                    earned_total: a.earned_total + reward,
                    slashed_total: a.slashed_total,
                    submissions: a.submissions + 1,
                    accepted: a.accepted + 1,
                },
            );
            self.supply = self.supply + reward;
            self.graph.add(t.embedding, t.domain);
            self.reward_reviewers(&t.reviews, true);
            assert(self@ =~= accepted(old(self)@, t@, dk).0);
            Ok(
                TxReceipt {
                    author: t.author,
                    accepted: true,
                    delta_k: dk,
                    minted: reward,
                    slashed: 0,
                },
            )
        } else {
            let slash: u64 = slash_amount(t.stake, self.slash_bps);
            if slash > t.stake || slash > u64::MAX - a.slashed_total || slash > u64::MAX
                - self.treasury {
                return Err(ChainError::Overflow);
            }
            self.accounts.insert(
                t.author,
                Account {
                    pubkey: a.pubkey,
                    balance: a.balance - slash,
                    staked_total: a.staked_total + t.stake,
                    earned_total: a.earned_total,
                    slashed_total: a.slashed_total + slash,
                    submissions: a.submissions + 1,
                    accepted: a.accepted,
                },
            );
            self.treasury = self.treasury + slash;
            self.reward_reviewers(&t.reviews, false);
            assert(self@ =~= rejected(old(self)@, t@, dk).0);
            Ok(
                TxReceipt {
                    author: t.author,
                    accepted: false,
                    delta_k: dk,
                    minted: 0,
                    slashed: slash,
                },
            )
        }
    }

    /// Checks, judges and settles one submission. On an error nothing has changed.
    pub fn apply_tx<F: Fn(&Assessment) -> u32>(&mut self, engine: &F, t: &SubmissionTx) -> (r:
        Result<TxReceipt, ChainError>)
        requires
            graph::is_function(*engine),
        ensures
            match applied_tx(graph::judge(*engine), old(self)@, t@) {
                Ok((after, receipt)) => r == Ok::<TxReceipt, ChainError>(receipt) && final(self)@
                    == after,
                Err(e) => r == Err::<TxReceipt, ChainError>(e) && final(self)@ == old(self)@,
            },
    {
        match self.validate_tx(t) {
            Ok(()) => {},
            Err(e) => {
                return Err(e);
            },
        }
        let reviews = self.weigh(&t.reviews);
        let dk: u32 = {
            let a = Assessment {
                submission: Submission {
                    embedding: t.embedding,
                    domain: t.domain,
                    timestamp_days: t.timestamp_days,
                },
                graph: self.graph.nodes.as_slice(),
                reviews: reviews.as_slice(),
                replications: (t.repl_success, t.repl_total),
                now_days: self.now_days,
            };
            assert(a@ =~= question(self@, t@));
            compute_delta_k(engine, &a)
        };
        self.settle_tx(t, dk)
    }

    /// Applies a block. Where it fails part of it may have been applied: callers
    /// that need all or nothing apply it to a copy.
    pub fn apply_block<F: Fn(&Assessment) -> u32>(&mut self, engine: &F, b: &Block) -> (r: Result<
        BlockReceipt,
        ChainError,
    >)
        requires
            graph::is_function(*engine),
        ensures
            match applied_block(graph::judge(*engine), old(self)@, b@) {
                Ok((after, receipt)) => {
                    &&& r matches Ok(x) && x@ == receipt
                    &&& final(self)@ == after
                },
                Err(e) => {
                    &&& r matches Err(x) && x == e
                    &&& final(self)@ == left_by_block(graph::judge(*engine), old(self)@, b@)
                },
            },
    {
        if self.height == u64::MAX {
            return Err(ChainError::Overflow);
        }
        if b.height != self.height + 1 {
            return Err(ChainError::BadHeight { expected: self.height + 1, got: b.height });
        }
        self.now_days = b.timestamp_days;
        let ghost judge = graph::judge(*engine);
        let ghost start = self@;
        let mut receipts: Vec<TxReceipt> = Vec::new();
        let mut minted: u64 = 0;
        let mut slashed: u64 = 0;
        let mut n_accept: usize = 0;
        let mut n_reject: usize = 0;
        let mut i: usize = 0;
        assert(start =~= (StateView { now_days: b.timestamp_days, ..old(self)@ }));
        assert(b@.txs.take(0) =~= Seq::<TxView>::empty());
        while i < b.txs.len()
            invariant
                i <= b.txs.len(),
                graph::is_function(*engine),
                judge == graph::judge(*engine),
                start == (StateView { now_days: b.timestamp_days, ..old(self)@ }),
                old(self)@.height < u64::MAX,
                b.height == old(self)@.height + 1,
                applied_txs(judge, start, b@.txs.take(i as int)) == Ok::<
                    (StateView, Seq<TxReceipt>),
                    ChainError,
                >((self@, receipts@)),
                receipts@.len() == i,
                minted == minted_sum(receipts@),
                slashed == slashed_sum(receipts@),
                n_accept == accepted_count(receipts@),
                n_accept + n_reject == i,
            decreases b.txs.len() - i,
        {
            let ghost before = self@;
            let ghost taken = b@.txs.take(i + 1);
            proof {
                assert(taken.drop_last() =~= b@.txs.take(i as int));
                assert(taken.last() == b.txs[i as int]@);
            }
            match self.apply_tx(engine, &b.txs[i]) {
                Ok(r) => {
                    proof {
                        lemma_receipts_push(receipts@, r);
                        lemma_applied_txs(judge, start, taken);
                    }
                    minted = minted + r.minted;
                    slashed = slashed + r.slashed;
                    if r.accepted {
                        n_accept = n_accept + 1;
                    } else {
                        n_reject = n_reject + 1;
                    }
                    receipts.push(r);
                },
                Err(e) => {
                    proof {
                        lemma_applied_txs_prefix(judge, start, b@.txs, i + 1);
                        reveal_with_fuel(left_by_txs, 2);
                    }
                    return Err(e);
                },
            }
            i += 1;
        }
        proof {
            assert(b@.txs.take(i as int) =~= b@.txs);
            lemma_applied_txs(judge, start, b@.txs);
        }
        self.height = b.height;
        Ok(
            BlockReceipt {
                height: b.height,
                hash: b.hash(),
                minted,
                slashed,
                accepted: n_accept,
                rejected: n_reject,
                txs: receipts,
            },
        )
    }
}

/// The part of a stake that is slashed at the given rate.
fn slash_amount(stake: u64, bps: u32) -> (r: u64)
    ensures
        r == (stake * bps / 10_000) % 0x1_0000_0000_0000_0000,
{
    assert(stake * bps <= 0xffff_ffff_ffff_ffff * 0xffff_ffff) by (nonlinear_arith)
        requires
            0 <= stake <= 0xffff_ffff_ffff_ffff,
            0 <= bps <= 0xffff_ffff,
    ;
    let whole: u128 = stake as u128 * bps as u128 / 10_000;
    (whole % 0x1_0000_0000_0000_0000) as u64
}

} // verus!
