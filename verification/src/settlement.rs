//! What becomes of a submission, a block and a genesis, field by field.
//!
//! The laws below speak of balances, totals, scores and graph nodes themselves: who is
//! asked what, who gains and who loses how much, and what stays as it was.

use vstd::prelude::*;

use crate::bytes;
use crate::codec;
use crate::crypto;
use crate::graph::{AssessmentView, Judge};
use crate::ieee;
use crate::ieee::ReputationStep;
use crate::state;
use crate::state::{Account, ChainError, GenesisView, ReceiptView, StateView, TxReceipt};
use crate::tx::{BlockView, Review, TxView};
use crate::validator;
use crate::PubKey;

verus! {

// --- checks -------------------------------------------------------------------

/// A submission passes the checks exactly where someone scored it, every score lies
/// between zero and one and is by someone known, the author is known and signed the
/// submission, and the author's balance covers the stake.
pub proof fn law_checks_are_these(st: StateView, t: TxView)
    ensures
        state::check_tx(st, t) is Ok <==> {
            &&& t.reviews.len() > 0
            &&& forall|i: int|
                0 <= i < t.reviews.len() ==> {
                    &&& (#[trigger] t.reviews[i]).score <= 0x3f80_0000 || t.reviews[i].score
                        == 0x8000_0000
                    &&& st.reviewers.contains_key(t.reviews[i].reviewer)
                }
            &&& st.accounts.contains_key(t.author)
            &&& crypto::ed25519_verify(
                st.accounts[t.author].pubkey@,
                codec::signing_bytes(t),
                t.signature@,
            )
            &&& t.stake <= st.accounts[t.author].balance
        },
{
    lemma_no_review_fault(t.reviews, st.reviewers);
}

proof fn lemma_no_review_fault(rs: Seq<Review>, known: Map<u64, u32>)
    ensures
        state::reviews_fault(rs, known) is None <==> forall|i: int|
            0 <= i < rs.len() ==> {
                &&& (#[trigger] rs[i]).score <= 0x3f80_0000 || rs[i].score == 0x8000_0000
                &&& known.contains_key(rs[i].reviewer)
            },
    decreases rs.len(),
{
    if rs.len() > 0 {
        let rest = rs.skip(1);
        lemma_no_review_fault(rest, known);
        if state::reviews_fault(rs, known) is None {
            assert forall|i: int| 0 <= i < rs.len() implies {
                &&& (#[trigger] rs[i]).score <= 0x3f80_0000 || rs[i].score == 0x8000_0000
                &&& known.contains_key(rs[i].reviewer)
            } by {
                if i > 0 {
                    assert(rest[i - 1] == rs[i]);
                }
            }
        } else if forall|i: int|
            0 <= i < rs.len() ==> {
                &&& (#[trigger] rs[i]).score <= 0x3f80_0000 || rs[i].score == 0x8000_0000
                &&& known.contains_key(rs[i].reviewer)
            } {
            assert(known.contains_key(rs[0].reviewer));
            assert forall|i: int| 0 <= i < rest.len() implies {
                &&& (#[trigger] rest[i]).score <= 0x3f80_0000 || rest[i].score == 0x8000_0000
                &&& known.contains_key(rest[i].reviewer)
            } by {
                assert(rest[i] == rs[i + 1]);
            }
        }
    }
}

/// A refusal names what is wrong: no scores come first, then the first bad score, then
/// an unknown author, then the signature, then the balance.
pub proof fn law_refusals_name_the_fault(st: StateView, t: TxView)
    ensures
        match state::check_tx(st, t) {
            Ok(()) => true,
            Err(ChainError::EmptyReviews(a)) => a == t.author && t.reviews.len() == 0,
            Err(ChainError::BadScore { reviewer, score }) => exists|i: int|
                {
                    &&& 0 <= i < t.reviews.len()
                    &&& (#[trigger] t.reviews[i]).reviewer == reviewer
                    &&& t.reviews[i].score == score
                    &&& score > 0x3f80_0000 && score != 0x8000_0000
                },
            Err(ChainError::UnknownReviewer(id)) => !st.reviewers.contains_key(id) && exists|i: int|
                0 <= i < t.reviews.len() && (#[trigger] t.reviews[i]).reviewer == id,
            Err(ChainError::UnknownAccount(a)) => a == t.author && t.reviews.len() > 0
                && !st.accounts.contains_key(a),
            Err(ChainError::BadSignature(a)) => {
                &&& a == t.author
                &&& st.accounts.contains_key(a)
                &&& !crypto::ed25519_verify(
                    st.accounts[a].pubkey@,
                    codec::signing_bytes(t),
                    t.signature@,
                )
            },
            Err(ChainError::InsufficientBalance { account, need, have }) => {
                &&& account == t.author
                &&& need == t.stake
                &&& st.accounts.contains_key(account)
                &&& have == st.accounts[account].balance
                &&& have < need
            },
            Err(_) => false,
        },
        t.reviews.len() > 0 && state::check_tx(st, t) is Err ==> match state::check_tx(st, t)->Err_0 {
            ChainError::BadScore { .. } => true,
            ChainError::UnknownReviewer(_) => true,
            _ => forall|i: int|
                0 <= i < t.reviews.len() ==> {
                    &&& (#[trigger] t.reviews[i]).score <= 0x3f80_0000 || t.reviews[i].score
                        == 0x8000_0000
                    &&& st.reviewers.contains_key(t.reviews[i].reviewer)
                },
        },
{
    lemma_review_fault_names(t.reviews, st.reviewers);
    lemma_no_review_fault(t.reviews, st.reviewers);
}

proof fn lemma_review_fault_names(rs: Seq<Review>, known: Map<u64, u32>)
    ensures
        match state::reviews_fault(rs, known) {
            None => true,
            Some(ChainError::BadScore { reviewer, score }) => exists|i: int|
                {
                    &&& 0 <= i < rs.len()
                    &&& (#[trigger] rs[i]).reviewer == reviewer
                    &&& rs[i].score == score
                    &&& score > 0x3f80_0000 && score != 0x8000_0000
                },
            Some(ChainError::UnknownReviewer(id)) => !known.contains_key(id) && exists|i: int|
                0 <= i < rs.len() && (#[trigger] rs[i]).reviewer == id,
            Some(_) => false,
        },
    decreases rs.len(),
{
    if rs.len() > 0 {
        let rest = rs.skip(1);
        lemma_review_fault_names(rest, known);
        if state::review_fault(rs[0], known) is None {
            match state::reviews_fault(rest, known) {
                Some(ChainError::BadScore { reviewer, score }) => {
                    let i = choose|i: int|
                        {
                            &&& 0 <= i < rest.len()
                            &&& (#[trigger] rest[i]).reviewer == reviewer
                            &&& rest[i].score == score
                            &&& score > 0x3f80_0000 && score != 0x8000_0000
                        };
                    assert(rs[i + 1] == rest[i]);
                },
                Some(ChainError::UnknownReviewer(id)) => {
                    let i = choose|i: int|
                        0 <= i < rest.len() && (#[trigger] rest[i]).reviewer == id;
                    assert(rs[i + 1] == rest[i]);
                },
                _ => {},
            }
        } else {
            assert(rs[0] == rs[0]);
        }
    }
}

/// Whoever gave the first bad score is named: a submission whose score `i` is bad, and
/// none before it, is refused for that score.
pub proof fn law_the_first_bad_score_is_named(st: StateView, t: TxView, i: int)
    requires
        0 <= i < t.reviews.len(),
        forall|j: int|
            0 <= j < i ==> {
                &&& (#[trigger] t.reviews[j]).score <= 0x3f80_0000 || t.reviews[j].score
                    == 0x8000_0000
                &&& st.reviewers.contains_key(t.reviews[j].reviewer)
            },
    ensures
        t.reviews[i].score > 0x3f80_0000 && t.reviews[i].score != 0x8000_0000 ==> state::check_tx(
            st,
            t,
        ) == Err::<(), ChainError>(
            ChainError::BadScore {
                reviewer: t.reviews[i].reviewer,
                score: t.reviews[i].score,
            },
        ),
        (t.reviews[i].score <= 0x3f80_0000 || t.reviews[i].score == 0x8000_0000)
            && !st.reviewers.contains_key(t.reviews[i].reviewer) ==> state::check_tx(st, t) == Err::<
            (),
            ChainError,
        >(ChainError::UnknownReviewer(t.reviews[i].reviewer)),
{
    if state::review_fault(t.reviews[i], st.reviewers) is Some {
        lemma_first_bad_score(t.reviews, st.reviewers, i);
    }
}

proof fn lemma_first_bad_score(rs: Seq<Review>, known: Map<u64, u32>, i: int)
    requires
        0 <= i < rs.len(),
        forall|j: int| 0 <= j < i ==> state::review_fault(#[trigger] rs[j], known) is None,
        state::review_fault(rs[i], known) is Some,
    ensures
        state::reviews_fault(rs, known) == state::review_fault(rs[i], known),
    decreases i,
{
    if i > 0 {
        let rest = rs.skip(1);
        assert(state::review_fault(rs[0], known) is None);
        assert forall|j: int| 0 <= j < i - 1 implies state::review_fault(
            #[trigger] rest[j],
            known,
        ) is None by {
            assert(rest[j] == rs[j + 1]);
        }
        lemma_first_bad_score(rest, known, i - 1);
    }
}

// --- the question -------------------------------------------------------------

/// The engine is asked about the submission, the graph that it would join, the
/// reputation and the score of each who scored it, in that order, the replications that
/// succeeded and that were tried, and the present time; and its answer decides.
pub proof fn law_the_engine_is_asked_about_the_submission(
    judge: Judge,
    st: StateView,
    t: TxView,
    q: AssessmentView,
)
    requires
        state::check_tx(st, t) is Ok,
        q.submission.embedding == t.embedding,
        q.submission.domain == t.domain,
        q.submission.timestamp_days == t.timestamp_days,
        q.graph == st.graph,
        q.reviews.len() == t.reviews.len(),
        forall|i: int|
            0 <= i < t.reviews.len() ==> {
                &&& (#[trigger] q.reviews[i]).0 == st.reviewers[t.reviews[i].reviewer]
                &&& q.reviews[i].1 == t.reviews[i].score
            },
        q.replications.0 == t.repl_success,
        q.replications.1 == t.repl_total,
        q.now_days == st.now_days,
    ensures
        state::question(st, t) == q,
        state::applied_tx(judge, st, t) == state::settled(st, t, judge(q)),
        state::applied_tx(judge, st, t) matches Ok((_, r)) ==> r.delta_k == judge(q),
{
    assert(state::question(st, t).reviews =~= q.reviews);
}

/// Only what the engine is told counts: engines that answer one question alike settle
/// the submission alike.
pub proof fn law_only_the_answer_counts(a: Judge, b: Judge, st: StateView, t: TxView)
    requires
        a(state::question(st, t)) == b(state::question(st, t)),
    ensures
        state::applied_tx(a, st, t) == state::applied_tx(b, st, t),
{
}

/// A submission that fails a check is refused for it, whatever the engine would say.
pub proof fn law_checks_come_first(judge: Judge, st: StateView, t: TxView)
    ensures
        state::check_tx(st, t) matches Err(e) ==> state::applied_tx(judge, st, t) == Err::<
            (StateView, TxReceipt),
            ChainError,
        >(e),
        state::applied_tx(judge, st, t) is Ok ==> state::check_tx(st, t) is Ok,
{
}

// --- settling -----------------------------------------------------------------

/// A delta-K above zero accepts. The author's balance and earnings, and the supply, grow
/// by what is minted; the knowledge joins the graph as its last node, under its own
/// domain; nobody else's account, no treasury and no rule changes.
pub proof fn law_an_accepted_submission(st: StateView, t: TxView, dk: u32)
    requires
        0 < dk <= 0x7f80_0000,
        state::settled(st, t, dk) is Ok,
    ensures
        ({
            let (after, r) = state::settled(st, t, dk)->Ok_0;
            let (a, b) = (st.accounts[t.author], after.accounts[t.author]);
            &&& r.accepted && r.author == t.author && r.delta_k == dk && r.slashed == 0
            &&& r.minted == ieee::scaled_reward(st.base_emission_micro, dk)
            &&& after.accounts.contains_key(t.author)
            &&& b.pubkey == a.pubkey
            &&& b.balance == a.balance + r.minted
            &&& b.earned_total == a.earned_total + r.minted
            &&& b.staked_total == a.staked_total + t.stake
            &&& b.slashed_total == a.slashed_total
            &&& b.submissions == a.submissions + 1
            &&& b.accepted == a.accepted + 1
            &&& after.supply == st.supply + r.minted
            &&& after.treasury == st.treasury
            &&& after.graph.len() == st.graph.len() + 1
            &&& after.graph.last().embedding == t.embedding
            &&& after.graph.last().domain == t.domain
            &&& st.graph.len() <= u64::MAX ==> after.graph.last().node_id == st.graph.len()
            &&& forall|i: int|
                0 <= i < st.graph.len() ==> #[trigger] after.graph[i] == st.graph[i]
        }),
{
}

/// Any other delta-K, a NaN among them, rejects. What is slashed moves from the author's
/// balance to the treasury; nothing is minted, and the graph stays as it was.
pub proof fn law_a_rejected_submission(st: StateView, t: TxView, dk: u32)
    requires
        !(0 < dk <= 0x7f80_0000),
        state::settled(st, t, dk) is Ok,
        t.stake <= st.accounts[t.author].balance,
    ensures
        ({
            let (after, r) = state::settled(st, t, dk)->Ok_0;
            let (a, b) = (st.accounts[t.author], after.accounts[t.author]);
            &&& !r.accepted && r.author == t.author && r.delta_k == dk && r.minted == 0
            &&& r.slashed <= t.stake
            &&& after.accounts.contains_key(t.author)
            &&& b.pubkey == a.pubkey
            &&& b.balance == a.balance - r.slashed
            &&& b.earned_total == a.earned_total
            &&& b.staked_total == a.staked_total + t.stake
            &&& b.slashed_total == a.slashed_total + r.slashed
            &&& b.submissions == a.submissions + 1
            &&& b.accepted == a.accepted
            &&& after.supply == st.supply
            &&& after.treasury == st.treasury + r.slashed
            &&& after.graph == st.graph
        }),
{
}

/// What is slashed is the stake times the basis points over ten thousand, rounded down:
/// all of the stake at ten thousand, nothing at zero.
pub proof fn law_slashing_is_by_basis_points(st: StateView, t: TxView, dk: u32)
    requires
        !(0 < dk <= 0x7f80_0000),
        st.slash_bps <= 10_000,
        state::settled(st, t, dk) is Ok,
    ensures
        ({
            let r = state::settled(st, t, dk)->Ok_0.1;
            &&& 10_000 * r.slashed <= t.stake * st.slash_bps < 10_000 * (r.slashed + 1)
            &&& st.slash_bps == 10_000 ==> r.slashed == t.stake
            &&& st.slash_bps == 0 ==> r.slashed == 0
        }),
{
    lemma_slash(t.stake, st.slash_bps);
}

proof fn lemma_slash(stake: u64, bps: u32)
    requires
        bps <= 10_000,
    ensures
        ({
            let s = (stake * bps / 10_000) % 0x1_0000_0000_0000_0000;
            &&& s == stake * bps / 10_000
            &&& 0 <= s <= stake
            &&& 10_000 * s <= stake * bps < 10_000 * (s + 1)
            &&& bps == 10_000 ==> s == stake
            &&& bps == 0 ==> s == 0
        }),
{
    let p = stake * bps;
    assert(0 <= p <= stake * 10_000) by (nonlinear_arith)
        requires
            p == stake * bps,
            0 <= bps <= 10_000,
            0 <= stake,
    ;
    assert(bps == 10_000 ==> p == stake * 10_000);
    assert(bps == 0 ==> p == 0);
    assert(0 <= p / 10_000 <= stake);
    assert((p / 10_000) % 0x1_0000_0000_0000_0000 == p / 10_000);
}

/// Settling changes nothing but the author's account, the supply, the treasury, the
/// graph and the reputations of those who scored.
pub proof fn law_settling_touches_no_one_else(st: StateView, t: TxView, dk: u32)
    requires
        state::settled(st, t, dk) is Ok,
    ensures
        ({
            let after = state::settled(st, t, dk)->Ok_0.0;
            &&& forall|id: u64|
                id != t.author ==> {
                    &&& #[trigger] after.accounts.contains_key(id) == st.accounts.contains_key(id)
                    &&& after.accounts[id] == st.accounts[id]
                }
            &&& after.validators == st.validators
            &&& after.base_emission_micro == st.base_emission_micro
            &&& after.slash_bps == st.slash_bps
            &&& after.height == st.height
            &&& after.now_days == st.now_days
        }),
{
}

/// Settling fails only where a total would leave the range of a 64-bit word.
pub proof fn law_settling_succeeds_within_range(st: StateView, t: TxView, dk: u32)
    requires
        ({
            let a = st.accounts[t.author];
            let minted = ieee::scaled_reward(st.base_emission_micro, dk);
            &&& a.staked_total + t.stake <= u64::MAX
            &&& a.submissions < u64::MAX
            &&& 0 < dk <= 0x7f80_0000 ==> {
                &&& a.balance + minted <= u64::MAX
                &&& a.earned_total + minted <= u64::MAX
                &&& a.accepted < u64::MAX
                &&& st.supply + minted <= u64::MAX
            }
            &&& !(0 < dk <= 0x7f80_0000) ==> {
                &&& st.slash_bps <= 10_000
                &&& a.slashed_total + t.stake <= u64::MAX
                &&& st.treasury + t.stake <= u64::MAX
            }
        }),
    ensures
        state::settled(st, t, dk) is Ok,
{
    if st.slash_bps <= 10_000 {
        lemma_slash(t.stake, st.slash_bps);
    }
}

/// The only error of settling is that of a total that leaves its range.
pub proof fn law_settling_fails_by_overflow(st: StateView, t: TxView, dk: u32)
    ensures
        state::settled(st, t, dk) matches Err(e) ==> e == ChainError::Overflow,
{
}

// --- reputations --------------------------------------------------------------

/// Nobody gains or loses a reputation altogether, and whoever did not score keeps
/// theirs.
pub proof fn law_only_scorers_are_restood(
    known: Map<u64, u32>,
    rs: Seq<Review>,
    accepted: bool,
    id: u64,
)
    ensures
        state::restanding(known, rs, accepted).dom() == known.dom(),
        (forall|i: int| 0 <= i < rs.len() ==> (#[trigger] rs[i]).reviewer != id)
            ==> state::restanding(known, rs, accepted)[id] == known[id],
    decreases rs.len(),
{
    if rs.len() > 0 {
        let before = rs.drop_last();
        law_only_scorers_are_restood(known, before, accepted, id);
        assert(state::restanding(known, rs, accepted).dom() =~= known.dom());
        if forall|i: int| 0 <= i < rs.len() ==> (#[trigger] rs[i]).reviewer != id {
            assert(rs[rs.len() - 1].reviewer != id);
            assert forall|i: int| 0 <= i < before.len() implies (#[trigger] before[i]).reviewer
                != id by {
                assert(before[i] == rs[i]);
            }
        }
    }
}

/// One who scored once is moved once: up for a score that the decision confirmed, down
/// for one that it contradicted. A score above 0.6 confirms an acceptance and
/// contradicts a rejection; any other contradicts an acceptance and confirms a
/// rejection.
pub proof fn law_one_score_moves_once(
    known: Map<u64, u32>,
    rs: Seq<Review>,
    accepted: bool,
    k: int,
)
    requires
        0 <= k < rs.len(),
        known.contains_key(rs[k].reviewer),
        forall|i: int|
            0 <= i < rs.len() && i != k ==> (#[trigger] rs[i]).reviewer != rs[k].reviewer,
    ensures
        ({
            let high = 0x3f19_999a < rs[k].score <= 0x7f80_0000;
            let step = if accepted && high {
                ReputationStep::ConfirmedHigh
            } else if accepted {
                ReputationStep::MissedLow
            } else if high {
                ReputationStep::MisledHigh
            } else {
                ReputationStep::ConfirmedLow
            };
            state::restanding(known, rs, accepted)[rs[k].reviewer] == ieee::stepped(
                known[rs[k].reviewer],
                step,
            )
        }),
    decreases rs.len(),
{
    let before = rs.drop_last();
    let id = rs[k].reviewer;
    law_only_scorers_are_restood(known, before, accepted, id);
    if k == rs.len() - 1 {
        assert forall|i: int| 0 <= i < before.len() implies (#[trigger] before[i]).reviewer
            != id by {
            assert(before[i] == rs[i]);
        }
    } else {
        assert(before[k] == rs[k]);
        assert forall|i: int| 0 <= i < before.len() && i != k implies (
        #[trigger] before[i]).reviewer != before[k].reviewer by {
            assert(before[i] == rs[i]);
        }
        law_one_score_moves_once(known, before, accepted, k);
        assert(rs[rs.len() - 1].reviewer != id);
    }
}

/// Scores move reputations one after another: those of two lists together are those of
/// the second after those of the first.
pub proof fn law_scores_move_in_turn(
    known: Map<u64, u32>,
    first: Seq<Review>,
    second: Seq<Review>,
    accepted: bool,
)
    ensures
        state::restanding(known, first + second, accepted) == state::restanding(
            state::restanding(known, first, accepted),
            second,
            accepted,
        ),
    decreases second.len(),
{
    if second.len() == 0 {
        assert(first + second =~= first);
    } else {
        let all = first + second;
        assert(all.drop_last() =~= first + second.drop_last());
        assert(all.last() == second.last());
        law_scores_move_in_turn(known, first, second.drop_last(), accepted);
    }
}

/// Settling moves the reputations of those who scored the submission, by whether it was
/// accepted.
pub proof fn law_settling_moves_the_scorers(st: StateView, t: TxView, dk: u32, k: int)
    requires
        state::settled(st, t, dk) is Ok,
        0 <= k < t.reviews.len(),
        st.reviewers.contains_key(t.reviews[k].reviewer),
        forall|i: int|
            0 <= i < t.reviews.len() && i != k ==> (#[trigger] t.reviews[i]).reviewer
                != t.reviews[k].reviewer,
    ensures
        ({
            let after = state::settled(st, t, dk)->Ok_0.0;
            let high = 0x3f19_999a < t.reviews[k].score <= 0x7f80_0000;
            let step = if 0 < dk <= 0x7f80_0000 && high {
                ReputationStep::ConfirmedHigh
            } else if 0 < dk <= 0x7f80_0000 {
                ReputationStep::MissedLow
            } else if high {
                ReputationStep::MisledHigh
            } else {
                ReputationStep::ConfirmedLow
            };
            &&& after.reviewers.dom() == st.reviewers.dom()
            &&& after.reviewers[t.reviews[k].reviewer] == ieee::stepped(
                st.reviewers[t.reviews[k].reviewer],
                step,
            )
            &&& forall|id: u64|
                (forall|i: int| 0 <= i < t.reviews.len() ==> (#[trigger] t.reviews[i]).reviewer
                    != id) ==> #[trigger] after.reviewers[id] == st.reviewers[id]
        }),
{
    let yes = 0 < dk <= 0x7f80_0000;
    law_one_score_moves_once(st.reviewers, t.reviews, yes, k);
    law_only_scorers_are_restood(st.reviewers, t.reviews, yes, 0);
    let after = state::settled(st, t, dk)->Ok_0.0;
    assert forall|id: u64|
        (forall|i: int| 0 <= i < t.reviews.len() ==> (#[trigger] t.reviews[i]).reviewer
            != id) implies #[trigger] after.reviewers[id] == st.reviewers[id] by {
        law_only_scorers_are_restood(st.reviewers, t.reviews, yes, id);
    }
}

// --- blocks -------------------------------------------------------------------

/// Each submission of a block is applied to what those before it left, at the time of
/// the block, and has its own receipt.
pub proof fn law_submissions_apply_in_turn(judge: Judge, st: StateView, b: BlockView, i: int)
    requires
        state::applied_block(judge, st, b) is Ok,
        0 <= i < b.txs.len(),
    ensures
        ({
            let rec = state::applied_block(judge, st, b)->Ok_0.1;
            let start = StateView { now_days: b.timestamp_days, ..st };
            let mid = state::applied_txs(judge, start, b.txs.take(i));
            let next = state::applied_txs(judge, start, b.txs.take(i + 1));
            &&& state::applied_txs(judge, start, b.txs.take(0)) == Ok::<
                (StateView, Seq<TxReceipt>),
                ChainError,
            >((start, Seq::empty()))
            &&& mid is Ok && next is Ok
            &&& mid->Ok_0.0.now_days == b.timestamp_days
            &&& mid->Ok_0.1 == rec.txs.take(i)
            &&& state::applied_tx(judge, mid->Ok_0.0, b.txs[i]) == Ok::<
                (StateView, TxReceipt),
                ChainError,
            >((next->Ok_0.0, rec.txs[i]))
        }),
{
    let start = StateView { now_days: b.timestamp_days, ..st };
    let (end, rs) = state::applied_txs(judge, start, b.txs)->Ok_0;
    assert(b.txs.take(0) =~= Seq::<TxView>::empty());
    lemma_prefix_applies(judge, start, b.txs, i);
    lemma_prefix_applies(judge, start, b.txs, i + 1);
    assert(b.txs.take(i + 1).drop_last() =~= b.txs.take(i));
    let mid = state::applied_txs(judge, start, b.txs.take(i))->Ok_0;
    state::lemma_applied_txs(judge, start, b.txs.take(i));
    state::lemma_applied_txs(judge, start, b.txs);
    let r = state::applied_tx(judge, mid.0, b.txs[i])->Ok_0.1;
    assert(rs.take(i + 1) == mid.1.push(r));
    assert(rs[i] == rs.take(i + 1)[i]);
}

proof fn lemma_prefix_applies(judge: Judge, st: StateView, txs: Seq<TxView>, i: int)
    requires
        state::applied_txs(judge, st, txs) is Ok,
        0 <= i <= txs.len(),
    ensures
        state::applied_txs(judge, st, txs.take(i)) is Ok,
        state::applied_txs(judge, st, txs.take(i))->Ok_0.1 == state::applied_txs(
            judge,
            st,
            txs,
        )->Ok_0.1.take(i),
    decreases txs.len(),
{
    state::lemma_applied_txs(judge, st, txs);
    let rs = state::applied_txs(judge, st, txs)->Ok_0.1;
    if i == txs.len() {
        assert(txs.take(i) =~= txs);
        assert(rs.take(i) =~= rs);
    } else {
        let before = txs.drop_last();
        lemma_prefix_applies(judge, st, before, i);
        assert(before.take(i) =~= txs.take(i));
        state::lemma_applied_txs(judge, st, before);
        let rb = state::applied_txs(judge, st, before)->Ok_0.1;
        assert(rb.take(i) =~= rs.take(i));
    }
}

/// A block moves the height to its own, which is the next, and the time to its own; it
/// changes no rule and no validator.
pub proof fn law_a_block_sets_height_and_time(judge: Judge, st: StateView, b: BlockView)
    requires
        state::applied_block(judge, st, b) is Ok,
    ensures
        ({
            let (after, rec) = state::applied_block(judge, st, b)->Ok_0;
            &&& b.height == st.height + 1
            &&& after.height == b.height
            &&& after.now_days == b.timestamp_days
            &&& after.validators == st.validators
            &&& after.base_emission_micro == st.base_emission_micro
            &&& after.slash_bps == st.slash_bps
            &&& rec.height == b.height
            &&& b.txs.len() == 0 ==> after == (StateView {
                height: b.height,
                now_days: b.timestamp_days,
                ..st
            })
        }),
{
    state::lemma_applied_txs(judge, StateView { now_days: b.timestamp_days, ..st }, b.txs);
}

/// A block's receipt adds up: what it minted is what the supply gained, what it slashed
/// is what the treasury gained, its acceptances are the nodes that the graph gained, and
/// the rest were rejected.
pub proof fn law_receipts_add_up(judge: Judge, st: StateView, b: BlockView)
    requires
        state::applied_block(judge, st, b) is Ok,
        b.txs.len() <= usize::MAX,
    ensures
        ({
            let (after, rec) = state::applied_block(judge, st, b)->Ok_0;
            &&& rec.minted == after.supply - st.supply
            &&& rec.slashed == after.treasury - st.treasury
            &&& rec.accepted == after.graph.len() - st.graph.len()
            &&& rec.accepted + rec.rejected == b.txs.len()
            &&& rec.txs.len() == b.txs.len()
            &&& forall|i: int| 0 <= i < b.txs.len() ==> (#[trigger] rec.txs[i]).author
                == b.txs[i].author
            &&& forall|i: int|
                0 <= i < st.graph.len() ==> #[trigger] after.graph[i] == st.graph[i]
        }),
{
    let start = StateView { now_days: b.timestamp_days, ..st };
    state::lemma_applied_txs(judge, start, b.txs);
    lemma_graph_gains(judge, start, b.txs);
}

proof fn lemma_graph_gains(judge: Judge, st: StateView, txs: Seq<TxView>)
    requires
        state::applied_txs(judge, st, txs) is Ok,
    ensures
        ({
            let (after, rs) = state::applied_txs(judge, st, txs)->Ok_0;
            &&& rs.len() == txs.len()
            &&& after.graph.len() == st.graph.len() + state::accepted_count(rs)
            &&& forall|i: int|
                0 <= i < st.graph.len() ==> #[trigger] after.graph[i] == st.graph[i]
            &&& forall|i: int| 0 <= i < txs.len() ==> (#[trigger] rs[i]).author == txs[i].author
        }),
    decreases txs.len(),
{
    if txs.len() > 0 {
        let before = txs.drop_last();
        lemma_graph_gains(judge, st, before);
        let (mid, rb) = state::applied_txs(judge, st, before)->Ok_0;
        let (after, r) = state::applied_tx(judge, mid, txs.last())->Ok_0;
        let rs = rb.push(r);
        assert(rs.drop_last() =~= rb);
        assert forall|i: int| 0 <= i < st.graph.len() implies #[trigger] after.graph[i]
            == st.graph[i] by {
            assert(mid.graph[i] == st.graph[i]);
        }
        assert forall|i: int| 0 <= i < txs.len() implies (#[trigger] rs[i]).author
            == txs[i].author by {
            if i < before.len() {
                assert(rs[i] == rb[i]);
                assert(before[i] == txs[i]);
            }
        }
    }
}

/// A block of another height than the next is refused for it, before anything else.
pub proof fn law_a_wrong_height_is_refused(judge: Judge, st: StateView, b: BlockView)
    requires
        st.height < u64::MAX,
        b.height != st.height + 1,
    ensures
        state::applied_block(judge, st, b) == Err::<(StateView, ReceiptView), ChainError>(
            ChainError::BadHeight { expected: (st.height + 1) as u64, got: b.height },
        ),
        state::left_by_block(judge, st, b) == st,
{
}

/// The first submission that fails decides why a block fails, and what it leaves behind
/// is what the submissions before that one made of the state.
pub proof fn law_the_first_failure_decides(judge: Judge, st: StateView, b: BlockView, i: int)
    requires
        st.height < u64::MAX,
        b.height == st.height + 1,
        0 <= i < b.txs.len(),
        ({
            let start = StateView { now_days: b.timestamp_days, ..st };
            &&& state::applied_txs(judge, start, b.txs.take(i)) is Ok
            &&& state::applied_tx(
                judge,
                state::applied_txs(judge, start, b.txs.take(i))->Ok_0.0,
                b.txs[i],
            ) is Err
        }),
    ensures
        ({
            let start = StateView { now_days: b.timestamp_days, ..st };
            let mid = state::applied_txs(judge, start, b.txs.take(i))->Ok_0.0;
            &&& state::applied_block(judge, st, b) == Err::<(StateView, ReceiptView), ChainError>(
                state::applied_tx(judge, mid, b.txs[i])->Err_0,
            )
            &&& state::left_by_block(judge, st, b) == mid
        }),
{
    let start = StateView { now_days: b.timestamp_days, ..st };
    assert(b.txs.take(i + 1).drop_last() =~= b.txs.take(i));
    assert(b.txs.take(i + 1).last() == b.txs[i]);
    reveal_with_fuel(state::left_by_txs, 2);
    state::lemma_applied_txs_prefix(judge, start, b.txs, i + 1);
}

/// A block whose height is the next and whose submissions all apply, each to what those
/// before it left, applies.
pub proof fn law_a_block_of_good_submissions_applies(judge: Judge, st: StateView, b: BlockView)
    requires
        st.height < u64::MAX,
        b.height == st.height + 1,
        forall|i: int|
            0 <= i < b.txs.len() ==> {
                let start = StateView { now_days: b.timestamp_days, ..st };
                state::applied_txs(judge, start, #[trigger] b.txs.take(i)) matches Ok((mid, _))
                    ==> state::applied_tx(judge, mid, b.txs[i]) is Ok
            },
    ensures
        state::applied_block(judge, st, b) is Ok,
{
    let start = StateView { now_days: b.timestamp_days, ..st };
    lemma_all_apply(judge, start, b.txs, b.txs.len() as int);
    assert(b.txs.take(b.txs.len() as int) =~= b.txs);
}

proof fn lemma_all_apply(judge: Judge, st: StateView, txs: Seq<TxView>, n: int)
    requires
        0 <= n <= txs.len(),
        forall|i: int|
            0 <= i < txs.len() ==> (state::applied_txs(judge, st, #[trigger] txs.take(
                i,
            )) matches Ok((mid, _)) ==> state::applied_tx(judge, mid, txs[i]) is Ok),
    ensures
        state::applied_txs(judge, st, txs.take(n)) is Ok,
    decreases n,
{
    if n > 0 {
        lemma_all_apply(judge, st, txs, n - 1);
        assert(txs.take(n).drop_last() =~= txs.take(n - 1));
        assert(txs.take(n).last() == txs[n - 1]);
    }
}

// --- genesis ------------------------------------------------------------------

/// A genesis endows whom it lists, and nobody else: the last entry of an id gives the
/// key and the balance of an account that has done nothing yet.
pub proof fn law_genesis_endows_the_listed(g: GenesisView, k: int)
    requires
        0 <= k < g.accounts.len(),
        forall|i: int| k < i < g.accounts.len() ==> (#[trigger] g.accounts[i]).0 != g.accounts[k].0,
    ensures
        ({
            let a = state::genesis_state(g).accounts[g.accounts[k].0];
            &&& state::genesis_state(g).accounts.contains_key(g.accounts[k].0)
            &&& a.balance == g.accounts[k].1
            &&& a.pubkey == g.accounts[k].2
            &&& a.staked_total == 0 && a.earned_total == 0 && a.slashed_total == 0
            &&& a.submissions == 0 && a.accepted == 0
        }),
        forall|id: u64| #[trigger]
            state::genesis_state(g).accounts.contains_key(id) ==> exists|i: int|
                0 <= i < g.accounts.len() && (#[trigger] g.accounts[i]).0 == id,
{
    lemma_endowed_last(g.accounts, k);
    lemma_endowed_listed(g.accounts);
}

proof fn lemma_endowed_last(list: Seq<(u64, u64, PubKey)>, k: int)
    requires
        0 <= k < list.len(),
        forall|i: int| k < i < list.len() ==> (#[trigger] list[i]).0 != list[k].0,
    ensures
        state::endowed(list).contains_key(list[k].0),
        state::endowed(list)[list[k].0] == (Account {
            pubkey: list[k].2,
            balance: list[k].1,
            staked_total: 0,
            earned_total: 0,
            slashed_total: 0,
            submissions: 0,
            accepted: 0,
        }),
    decreases list.len(),
{
    if k < list.len() - 1 {
        let before = list.drop_last();
        assert(before[k] == list[k]);
        assert forall|i: int| k < i < before.len() implies (#[trigger] before[i]).0
            != before[k].0 by {
            assert(before[i] == list[i]);
        }
        lemma_endowed_last(before, k);
        assert(list[list.len() - 1].0 != list[k].0);
    }
}

proof fn lemma_endowed_listed(list: Seq<(u64, u64, PubKey)>)
    ensures
        forall|id: u64| #[trigger]
            state::endowed(list).contains_key(id) ==> exists|i: int|
                0 <= i < list.len() && (#[trigger] list[i]).0 == id,
    decreases list.len(),
{
    if list.len() > 0 {
        let before = list.drop_last();
        lemma_endowed_listed(before);
        assert forall|id: u64| #[trigger] state::endowed(list).contains_key(id) implies exists|
            i: int,
        |
            0 <= i < list.len() && (#[trigger] list[i]).0 == id by {
            if id == list.last().0 {
                assert(list[list.len() - 1].0 == id);
            } else {
                assert(state::endowed(before).contains_key(id));
                let i = choose|i: int| 0 <= i < before.len() && (#[trigger] before[i]).0 == id;
                assert(list[i].0 == id);
            }
        }
    }
}

/// A genesis gives whom it lists their reputations; the last entry of an id counts.
pub proof fn law_genesis_sets_the_listed_reputations(g: GenesisView, k: int)
    requires
        0 <= k < g.reviewers.len(),
        forall|i: int|
            k < i < g.reviewers.len() ==> (#[trigger] g.reviewers[i]).0 != g.reviewers[k].0,
    ensures
        state::genesis_state(g).reviewers.contains_key(g.reviewers[k].0),
        state::genesis_state(g).reviewers[g.reviewers[k].0] == g.reviewers[k].1,
        forall|id: u64| #[trigger]
            state::genesis_state(g).reviewers.contains_key(id) ==> exists|i: int|
                0 <= i < g.reviewers.len() && (#[trigger] g.reviewers[i]).0 == id,
{
    lemma_standing_last(g.reviewers, k);
    lemma_standing_listed(g.reviewers);
}

proof fn lemma_standing_last(list: Seq<(u64, u32)>, k: int)
    requires
        0 <= k < list.len(),
        forall|i: int| k < i < list.len() ==> (#[trigger] list[i]).0 != list[k].0,
    ensures
        state::standings(list).contains_key(list[k].0),
        state::standings(list)[list[k].0] == list[k].1,
    decreases list.len(),
{
    if k < list.len() - 1 {
        let before = list.drop_last();
        assert(before[k] == list[k]);
        assert forall|i: int| k < i < before.len() implies (#[trigger] before[i]).0
            != before[k].0 by {
            assert(before[i] == list[i]);
        }
        lemma_standing_last(before, k);
        assert(list[list.len() - 1].0 != list[k].0);
    }
}

proof fn lemma_standing_listed(list: Seq<(u64, u32)>)
    ensures
        forall|id: u64| #[trigger]
            state::standings(list).contains_key(id) ==> exists|i: int|
                0 <= i < list.len() && (#[trigger] list[i]).0 == id,
    decreases list.len(),
{
    if list.len() > 0 {
        let before = list.drop_last();
        lemma_standing_listed(before);
        assert forall|id: u64| #[trigger] state::standings(list).contains_key(id) implies exists|
            i: int,
        |
            0 <= i < list.len() && (#[trigger] list[i]).0 == id by {
            if id == list.last().0 {
                assert(list[list.len() - 1].0 == id);
            } else {
                assert(state::standings(before).contains_key(id));
                let i = choose|i: int| 0 <= i < before.len() && (#[trigger] before[i]).0 == id;
                assert(list[i].0 == id);
            }
        }
    }
}

/// The rest of a genesis: its seed nodes in order, its rules, its time, height zero and
/// nothing slashed; the block that stands for it has no predecessor, no submissions and
/// the same time.
pub proof fn law_genesis_takes_over_the_rest(g: GenesisView)
    ensures
        ({
            let st = state::genesis_state(g);
            let b = state::genesis_block(g);
            &&& st.graph.len() == g.seed_nodes.len()
            &&& forall|i: int|
                0 <= i < g.seed_nodes.len() ==> {
                    &&& (#[trigger] st.graph[i]).embedding == g.seed_nodes[i].0
                    &&& st.graph[i].domain == g.seed_nodes[i].1
                    &&& i <= u64::MAX ==> st.graph[i].node_id == i
                }
            &&& st.base_emission_micro == g.base_emission_micro
            &&& st.slash_bps == g.slash_bps
            &&& st.now_days == g.timestamp_days
            &&& st.treasury == 0
            &&& st.height == 0
            &&& b.height == 0
            &&& b.timestamp_days == g.timestamp_days
            &&& b.txs.len() == 0
            &&& forall|i: int| 0 <= i < 32 ==> #[trigger] b.prev_hash@[i] == 0
        }),
{
    bytes::lemma_zeros();
}

/// A genesis seats the validators that it lists: the last entry of an id gives the key
/// and the power of the one validator with that id, and nobody else is seated.
pub proof fn law_genesis_seats_the_listed(g: GenesisView, k: int)
    requires
        0 <= k < g.validators.len(),
        forall|i: int|
            k < i < g.validators.len() ==> (#[trigger] g.validators[i]).0 != g.validators[k].0,
    ensures
        ({
            let vs = state::genesis_state(g).validators;
            &&& exists|j: int|
                {
                    &&& 0 <= j < vs.len()
                    &&& (#[trigger] vs[j]).id == g.validators[k].0
                    &&& vs[j].pubkey == g.validators[k].1
                    &&& vs[j].power == g.validators[k].2
                }
            &&& forall|j: int|
                0 <= j < vs.len() ==> exists|i: int|
                    0 <= i < g.validators.len() && (#[trigger] g.validators[i]).0 == (
                    #[trigger] vs[j]).id
            &&& forall|i: int, j: int| 0 <= i < j < vs.len() ==> vs[i].id < vs[j].id
        }),
{
    let list = state::listed_validators(g.validators);
    assert forall|i: int| k < i < list.len() implies (#[trigger] list[i]).id != list[k].id by {
        assert(g.validators[i].0 != g.validators[k].0);
    }
    validator::law_the_last_listed_is_seated(list, k);
    validator::lemma_set_of(list);
    let vs = state::genesis_state(g).validators;
    assert forall|j: int| 0 <= j < vs.len() implies exists|i: int|
        0 <= i < g.validators.len() && (#[trigger] g.validators[i]).0 == (#[trigger] vs[j]).id by {
        let i = choose|i: int| 0 <= i < list.len() && #[trigger] list[i] == vs[j];
        assert(g.validators[i].0 == vs[j].id);
    }
}

} // verus!
