//! What a full peer answers, message by message.

use vstd::prelude::*;

use crate::chain;
use crate::consensus;
use crate::consensus::{CommitView, SlashEvidence, StakeOp};
use crate::gossip::MsgView;
use crate::graph::Judge;
use crate::light::{CertifiedView, EntryView, ProofKind};
use crate::mempool;
use crate::node;
use crate::node::NodeView;
use crate::ordered;
use crate::state;
use crate::state::{GenesisView, StateView};
use crate::tx;
use crate::tx::{BlockView, TxView};
use crate::validator;
use crate::Digest;

verus! {

// --- entries ------------------------------------------------------------------

/// A served entry is the one asked for, and whatever is known is served: an account, a
/// reputation or a validator by its id, as the state holds it, and a graph node by its
/// position.
pub proof fn law_the_entry_asked_for_is_served(st: StateView, kind: ProofKind, id: u64)
    ensures
        match kind {
            ProofKind::Account => {
                &&& node::entry_for(st, kind, id) is Some <==> st.accounts.contains_key(id)
                &&& node::entry_for(st, kind, id) matches Some(e) ==> {
                    e matches EntryView::Account { id: x, account, .. } && x == id && account
                        == st.accounts[id]
                }
            },
            ProofKind::Reviewer => {
                &&& node::entry_for(st, kind, id) is Some <==> st.reviewers.contains_key(id)
                &&& node::entry_for(st, kind, id) matches Some(e) ==> {
                    e matches EntryView::Reviewer { id: x, reputation, .. } && x == id
                        && reputation == st.reviewers[id]
                }
            },
            ProofKind::Validator => {
                &&& node::entry_for(st, kind, id) is Some <==> exists|j: int|
                    0 <= j < st.validators.len() && (#[trigger] st.validators[j]).id == id
                &&& node::entry_for(st, kind, id) matches Some(e) ==> {
                    e matches EntryView::Validator { id: x, validator, .. } && x == id
                        && validator.id == id && st.validators.contains(validator)
                }
            },
            ProofKind::GraphNode => {
                &&& node::entry_for(st, kind, id) is Some <==> id < st.graph.len()
                &&& node::entry_for(st, kind, id) matches Some(e) ==> {
                    e matches EntryView::GraphNode { node_id, graph_node, .. } && graph_node
                        == st.graph[id as int] && node_id == st.graph[id as int].node_id
                }
            },
        },
        node::entry_for(st, kind, id) matches Some(e) ==> e.kind() == kind && (e.id() == id || kind
            == ProofKind::GraphNode && e.id() == st.graph[id as int].node_id),
{
    let vs = st.validators;
    let p = validator::place(vs, id);
    validator::lemma_place(vs, id);
    if p < vs.len() {
        assert(vs[p].id == id);
    } else if exists|j: int| 0 <= j < vs.len() && (#[trigger] vs[j]).id == id {
        let j = choose|j: int| 0 <= j < vs.len() && (#[trigger] vs[j]).id == id;
        assert(vs[j].id != id);
    }
}

/// A request for at most thirty-two entries gets one reply, to whoever asked, with one
/// slot for each of them in their order; a larger one gets none. Nothing else changes
/// than that the asker is known.
pub proof fn law_proofs_are_answered_slot_by_slot(
    judge: Judge,
    n: NodeView,
    from: u64,
    items: Seq<(ProofKind, u64)>,
)
    ensures
        ({
            let (after, out) = node::reacted(judge, n, from, MsgView::GetProof { items });
            &&& after == (NodeView { peers: n.peers.insert(from), ..n })
            &&& items.len() > 32 ==> out.len() == 0
            &&& items.len() <= 32 ==> {
                &&& out.len() == 1
                &&& out[0].0 == from
                &&& out[0].1 matches MsgView::Proof { items: slots } && {
                    &&& slots.len() == items.len()
                    &&& forall|i: int|
                        0 <= i < items.len() ==> #[trigger] slots[i] == node::entry_for(
                            n.chain.state,
                            items[i].0,
                            items[i].1,
                        )
                }
            }
        }),
{
}

// --- batches ------------------------------------------------------------------

/// The blocks handed out from a height are those of the chain from that height on, each
/// with its own certificate, up to two hundred and fifty-six of them; there are none
/// before the first height or past the last.
pub proof fn law_batches_follow_the_chain(n: NodeView, height: u64)
    requires
        n.certs.len() == n.blocks.len(),
    ensures
        ({
            let batch = node::batch_from(n, height);
            let left = n.blocks.len() - height + 1;
            &&& height == 0 || height > n.blocks.len() ==> batch.len() == 0
            &&& 0 < height <= n.blocks.len() ==> batch.len() == if left > 256 {
                256
            } else {
                left
            }
            &&& forall|i: int|
                0 <= i < batch.len() ==> #[trigger] batch[i] == (
                    n.blocks[height - 1 + i],
                    n.certs[height - 1 + i],
                )
        }),
{
}

/// Headers tell of their blocks: height, predecessor, time and hash, with the
/// certificate.
pub proof fn law_headers_tell_of_their_blocks(batch: Seq<(BlockView, CommitView)>)
    ensures
        node::headers_of(batch).len() == batch.len(),
        forall|i: int|
            0 <= i < batch.len() ==> {
                let h = #[trigger] node::headers_of(batch)[i];
                &&& h.header.height == batch[i].0.height
                &&& h.header.prev_hash == batch[i].0.prev_hash
                &&& h.header.timestamp_days == batch[i].0.timestamp_days
                &&& h.header.block_hash == tx::block_hash(batch[i].0)
                &&& h.cert == batch[i].1
            },
{
}

// --- answers ------------------------------------------------------------------

/// A taller peer is asked for the blocks above one's own, a lower one is handed the
/// blocks above its height, starting with the very next, and one of the same height is
/// left alone.
pub proof fn law_heights_are_answered(judge: Judge, n: NodeView, from: u64, theirs: u64)
    requires
        node::is_certified_node(n),
    ensures
        ({
            let (after, out) = node::reacted(judge, n, from, MsgView::Status { height: theirs });
            let height = n.chain.state.height;
            &&& after == (NodeView { peers: n.peers.insert(from), ..n })
            &&& theirs > height ==> out == seq![
                (from, MsgView::GetBlocks { from: (height + 1) as u64 }),
            ]
            &&& theirs == height ==> out.len() == 0
            &&& theirs < height ==> {
                &&& out.len() == 1
                &&& out[0].0 == from
                &&& out[0].1 matches MsgView::Blocks(batch) && {
                    &&& 0 < batch.len() <= 256
                    &&& batch.len() == 256 || batch.len() == height - theirs
                    &&& forall|i: int|
                        0 <= i < batch.len() ==> {
                            &&& #[trigger] batch[i] == (
                                n.blocks[theirs + i],
                                n.certs[theirs + i],
                            )
                            &&& batch[i].0.height == theirs + 1 + i
                        }
                }
            }
        }),
{
    let height = n.chain.state.height;
    if theirs < height {
        let batch = node::batch_from(n, (theirs + 1) as u64);
        law_batches_follow_the_chain(n, (theirs + 1) as u64);
        assert forall|i: int| 0 <= i < batch.len() implies {
            &&& #[trigger] batch[i] == (n.blocks[theirs + i], n.certs[theirs + i])
            &&& batch[i].0.height == theirs + 1 + i
        } by {
            assert(n.blocks[theirs + i].height == theirs + i + 1);
        }
    }
}

/// Whoever asks for blocks or headers from a height gets those of the chain from there,
/// or nothing where there are none.
pub proof fn law_requests_are_served(judge: Judge, n: NodeView, from: u64, height: u64)
    requires
        n.certs.len() == n.blocks.len(),
    ensures
        ({
            let (a, blocks) = node::reacted(judge, n, from, MsgView::GetBlocks { from: height });
            let (b, headers) = node::reacted(judge, n, from, MsgView::GetHeaders { from: height });
            let none = height == 0 || height > n.blocks.len();
            &&& a == (NodeView { peers: n.peers.insert(from), ..n })
            &&& b == (NodeView { peers: n.peers.insert(from), ..n })
            &&& none ==> blocks.len() == 0 && headers.len() == 0
            &&& !none ==> {
                &&& blocks.len() == 1 && blocks[0].0 == from
                &&& blocks[0].1 matches MsgView::Blocks(batch) && batch == node::batch_from(
                    n,
                    height,
                )
                &&& headers.len() == 1 && headers[0].0 == from
                &&& headers[0].1 matches MsgView::Headers(list) && list == node::headers_of(
                    node::batch_from(n, height),
                )
            }
        }),
{
    let known = NodeView { peers: n.peers.insert(from), ..n };
    law_batches_follow_the_chain(n, height);
    law_batches_follow_the_chain(known, height);
    assert(node::batch_from(known, height) == node::batch_from(n, height));
}

/// Headers and proofs are for light peers: a full one learns from them only who wrote.
pub proof fn law_light_answers_are_ignored(
    judge: Judge,
    n: NodeView,
    from: u64,
    batch: Seq<CertifiedView>,
    items: Seq<Option<EntryView>>,
)
    ensures
        node::reacted(judge, n, from, MsgView::Headers(batch)) == (
            NodeView { peers: n.peers.insert(from), ..n },
            Seq::<(u64, MsgView)>::empty(),
        ),
        node::reacted(judge, n, from, MsgView::Proof { items }) == (
            NodeView { peers: n.peers.insert(from), ..n },
            Seq::<(u64, MsgView)>::empty(),
        ),
{
}

/// Whatever a message says, its sender is known from then on, and nobody else becomes
/// known by it; a node keeps its own id.
pub proof fn law_the_sender_is_remembered(judge: Judge, n: NodeView, from: u64, m: MsgView)
    requires
        node::is_certified_node(n),
    ensures
        node::reacted(judge, n, from, m).0.peers == n.peers.insert(from),
        node::reacted(judge, n, from, m).0.id == n.id,
{
    if let MsgView::Blocks(batch) = m {
        lemma_absorbed_keeps(judge, NodeView { peers: n.peers.insert(from), ..n }, batch);
    }
}

proof fn lemma_absorbed_keeps(judge: Judge, n: NodeView, batch: Seq<(BlockView, CommitView)>)
    ensures
        ({
            let after = node::absorbed(judge, n, batch).0;
            &&& after.id == n.id
            &&& after.peers == n.peers
            &&& after.seen_tx == n.seen_tx
            &&& after.seen_evidence == n.seen_evidence
            &&& after.seen_stake_op == n.seen_stake_op
            &&& after.pending_evidence == n.pending_evidence
            &&& after.pending_stake_ops == n.pending_stake_ops
            &&& after.pool.max_txs == n.pool.max_txs
        }),
    decreases batch.len(),
{
    reveal(node::accepted);
    if batch.len() > 0 {
        if let Some(next) = node::accepted(judge, n, batch[0].0, batch[0].1) {
            lemma_absorbed_keeps(judge, next, batch.skip(1));
        }
    }
}

/// A fresh node has the given id and knows the peers that it was told of except itself;
/// it stands at genesis, nothing has come in, and its pool is empty with the given limit.
pub proof fn law_a_fresh_node(id: u64, g: GenesisView, max_txs: usize, peers: Seq<u64>, p: u64)
    ensures
        ({
            let n = node::fresh_node(id, g, max_txs, peers);
            &&& n.id == id
            &&& n.peers.contains(p) <==> p != id && peers.contains(p)
            &&& n.chain == chain::genesis_chain(g)
            &&& n.pool.max_txs == max_txs
            &&& n.pool.txs.len() == 0
            &&& n.blocks.len() == 0
            &&& n.certs.len() == 0
            &&& n.pending_evidence.len() == 0
            &&& n.pending_stake_ops.len() == 0
            &&& !(exists|d: Digest|
                n.seen_tx.contains(d) || n.seen_evidence.contains(d) || n.seen_stake_op.contains(d))
        }),
{
}

// --- flooding -----------------------------------------------------------------

/// A message to each of some peers goes to exactly those, once to each, in order of
/// their ids, and says the same to all.
pub proof fn law_everyone_is_told_once(peers: Set<u64>, m: MsgView)
    requires
        peers.finite(),
    ensures
        ({
            let out = node::to_each(peers, m);
            &&& forall|i: int|
                0 <= i < out.len() ==> (#[trigger] out[i]).1 == m && peers.contains(out[i].0)
            &&& forall|i: int, j: int| 0 <= i < j < out.len() ==> out[i].0 < out[j].0
            &&& forall|p: u64| #[trigger]
                peers.contains(p) ==> exists|i: int| 0 <= i < out.len() && (#[trigger] out[i]).0 == p
        }),
{
    ordered::lemma_has_listing(peers);
    let ids = ordered::in_order(peers);
    let out = node::to_each(peers, m);
    assert forall|i: int| 0 <= i < out.len() implies (#[trigger] out[i]).1 == m && peers.contains(
        out[i].0,
    ) by {
        assert(ids.contains(ids[i]));
    }
    assert forall|p: u64| #[trigger] peers.contains(p) implies exists|i: int|
        0 <= i < out.len() && (#[trigger] out[i]).0 == p by {
        assert(ids.contains(p));
        let i = choose|i: int| 0 <= i < ids.len() && ids[i] == p;
        assert(out[i].0 == p);
    }
}

/// A novel submission that passes the checks becomes pending and goes to all peers but
/// the one it came from; one that fails them is only remembered. Nothing else changes.
pub proof fn law_a_novel_submission_is_passed_on(judge: Judge, n: NodeView, from: u64, t: TxView)
    requires
        mempool::by_hash(n.pool.txs),
        !n.seen_tx.contains(tx::tx_hash(t)),
    ensures
        ({
            let (after, out) = node::reacted(judge, n, from, MsgView::Tx(t));
            let rest = NodeView {
                peers: n.peers.insert(from),
                seen_tx: n.seen_tx.insert(tx::tx_hash(t)),
                ..n
            };
            &&& after == (NodeView { pool: after.pool, ..rest })
            &&& state::check_tx(n.chain.state, t) is Err ==> out.len() == 0 && after.pool == n.pool
            &&& state::check_tx(n.chain.state, t) is Ok ==> {
                &&& out == node::to_each(n.peers.remove(from), MsgView::Tx(t))
                &&& after.pool.max_txs == n.pool.max_txs
                &&& mempool::by_hash(after.pool.txs)
                &&& mempool::includes(after.pool.txs, tx::tx_hash(t))
                &&& forall|x: TxView| #[trigger]
                    n.pool.txs.contains(x) ==> after.pool.txs.contains(x)
                &&& forall|x: TxView| #[trigger]
                    after.pool.txs.contains(x) ==> x == t || n.pool.txs.contains(x)
            }
        }),
{
    assert(n.peers.insert(from).remove(from) =~= n.peers.remove(from));
    mempool::law_added_drops_nobody(n.pool.txs, t);
    mempool::law_added_keeps_order(n.pool.txs, t);
    mempool::law_added_is_included(n.pool.txs, t, tx::tx_hash(t));
    let all = mempool::added(n.pool.txs, t);
    assert forall|x: TxView| #[trigger] all.contains(x) implies x == t || n.pool.txs.contains(
        x,
    ) by {
        let i = choose|i: int| 0 <= i < all.len() && all[i] == x;
        assert(all[i] == x);
    }
}

/// Novel evidence of two votes that conflict is staged last and passed on to all peers
/// but the sender; votes that do not conflict are dropped.
pub proof fn law_novel_evidence_is_passed_on(
    judge: Judge,
    n: NodeView,
    from: u64,
    ev: SlashEvidence,
)
    requires
        !n.seen_evidence.contains(consensus::evidence_hash(ev)),
    ensures
        ({
            let (after, out) = node::reacted(judge, n, from, MsgView::Evidence(ev));
            let known = NodeView { peers: n.peers.insert(from), ..n };
            if {
                &&& ev.vote_a.validator == ev.vote_b.validator
                &&& ev.vote_a.height == ev.vote_b.height
                &&& ev.vote_a.round == ev.vote_b.round
                &&& ev.vote_a.vote_type == ev.vote_b.vote_type
                &&& ev.vote_a.block_hash != ev.vote_b.block_hash
            } {
                &&& after == (NodeView {
                    seen_evidence: n.seen_evidence.insert(consensus::evidence_hash(ev)),
                    pending_evidence: n.pending_evidence.push(ev),
                    ..known
                })
                &&& out == node::to_each(n.peers.remove(from), MsgView::Evidence(ev))
            } else {
                after == known && out.len() == 0
            }
        }),
{
    assert(n.peers.insert(from).remove(from) =~= n.peers.remove(from));
}

/// A novel bonding request is staged last and passed on to all peers but the sender.
pub proof fn law_a_novel_stake_op_is_passed_on(judge: Judge, n: NodeView, from: u64, op: StakeOp)
    requires
        !n.seen_stake_op.contains(consensus::stake_op_hash(op)),
    ensures
        node::reacted(judge, n, from, MsgView::StakeOp(op)) == (
            NodeView {
                peers: n.peers.insert(from),
                seen_stake_op: n.seen_stake_op.insert(consensus::stake_op_hash(op)),
                pending_stake_ops: n.pending_stake_ops.push(op),
                ..n
            },
            node::to_each(n.peers.remove(from), MsgView::StakeOp(op)),
        ),
{
    assert(n.peers.insert(from).remove(from) =~= n.peers.remove(from));
}

// --- certified blocks ---------------------------------------------------------

/// A certified block is applied exactly where it is the next block on top of the head,
/// its certificate is for its own height and hash and verifies under the validators, and
/// the block commits.
pub proof fn law_certified_blocks_are_applied(
    judge: Judge,
    n: NodeView,
    b: BlockView,
    cert: CommitView,
)
    ensures
        node::accepted(judge, n, b, cert) is Some <==> {
            &&& b.height == n.chain.state.height + 1
            &&& b.prev_hash == n.chain.head
            &&& cert.height == b.height
            &&& cert.block_hash == tx::block_hash(b)
            &&& consensus::certified(n.chain.state.validators, cert) is Ok
            &&& chain::committed(judge, n.chain, b) is Ok
        },
        node::accepted(judge, n, b, cert) matches Some(after) ==> {
            &&& after.chain == chain::committed(judge, n.chain, b)->Ok_0.0
            &&& after.blocks == n.blocks.push(b)
            &&& after.certs == n.certs.push(cert)
            &&& after.pool.max_txs == n.pool.max_txs
            &&& forall|h: crate::Digest|
                mempool::includes(after.pool.txs, h) <==> #[trigger] mempool::includes(
                    n.pool.txs,
                    h,
                ) && !mempool::includes(b.txs, h)
            &&& after == (NodeView {
                chain: after.chain,
                pool: after.pool,
                blocks: after.blocks,
                certs: after.certs,
                ..n
            })
        },
{
    reveal(node::accepted);
    if let Some(after) = node::accepted(judge, n, b, cert) {
        assert forall|h: crate::Digest|
            mempool::includes(after.pool.txs, h) <==> #[trigger] mempool::includes(n.pool.txs, h)
                && !mempool::includes(b.txs, h) by {
            mempool::law_without_drops_the_included(n.pool.txs, b.txs, h);
        }
    }
}

/// Of a batch, the blocks before the first that is refused are applied, in order, and
/// that one is not, nor any after it.
pub proof fn law_a_batch_is_applied_up_to_the_first_refused(
    judge: Judge,
    n: NodeView,
    batch: Seq<(BlockView, CommitView)>,
)
    ensures
        ({
            let (after, k) = node::absorbed(judge, n, batch);
            &&& k <= batch.len()
            &&& after.blocks.len() == n.blocks.len() + k
            &&& forall|i: int|
                0 <= i < n.blocks.len() ==> #[trigger] after.blocks[i] == n.blocks[i]
            &&& forall|i: int|
                0 <= i < k ==> #[trigger] after.blocks[n.blocks.len() + i] == batch[i].0
            &&& k < batch.len() ==> node::accepted(judge, after, batch[k as int].0, batch[k as int].1)
                is None
        }),
    decreases batch.len(),
{
    reveal(node::accepted);
    if batch.len() > 0 {
        if let Some(next) = node::accepted(judge, n, batch[0].0, batch[0].1) {
            let tail = batch.skip(1);
            law_a_batch_is_applied_up_to_the_first_refused(judge, next, tail);
            let (after, k) = node::absorbed(judge, next, tail);
            assert forall|i: int| 0 <= i < n.blocks.len() implies #[trigger] after.blocks[i]
                == n.blocks[i] by {
                assert(after.blocks[i] == next.blocks[i]);
            }
            assert forall|i: int| 0 <= i < k + 1 implies #[trigger] after.blocks[n.blocks.len()
                + i] == batch[i].0 by {
                if i > 0 {
                    assert(after.blocks[next.blocks.len() + (i - 1)] == tail[i - 1].0);
                } else {
                    assert(after.blocks[n.blocks.len() as int] == next.blocks[n.blocks.len() as int]);
                }
            }
        }
    }
}

/// A batch that makes a node taller is news: its new height goes to all peers but the
/// sender, and where the batch was full and all of it was applied the sender is asked
/// for more. A batch that does not help is not answered.
pub proof fn law_growth_is_news(
    judge: Judge,
    n: NodeView,
    from: u64,
    batch: Seq<(BlockView, CommitView)>,
)
    requires
        node::is_certified_node(n),
    ensures
        ({
            let (after, out) = node::reacted(judge, n, from, MsgView::Blocks(batch));
            let (was, is) = (n.chain.state.height, after.chain.state.height);
            let news = node::to_each(n.peers.remove(from), MsgView::Status { height: is });
            &&& is >= was
            &&& is == was ==> out.len() == 0
            &&& is > was && !(is - was == 256 && batch.len() == 256) ==> out == news
            &&& is - was == 256 && batch.len() == 256 && is < u64::MAX ==> out == news.push(
                (from, MsgView::GetBlocks { from: (is + 1) as u64 }),
            )
        }),
{
    let known = NodeView { peers: n.peers.insert(from), ..n };
    node::law_messages_keep_nodes_certified(judge, n, from, MsgView::Status { height: 0 });
    assert(node::is_certified_node(known));
    node::law_absorbed_stays_certified(judge, known, batch);
    assert(known.peers.remove(from) =~= n.peers.remove(from));
}

} // verus!
