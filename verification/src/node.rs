//! A full peer: a chain, a pool, the certified blocks it can hand out, and what it
//! remembers of the gossip that passed through it.
//!
//! A node reacts to a message by changing its own state and naming the messages to
//! send; it does no input or output. It trusts nothing: a certified block is applied
//! only if it is the next block, extends the head, and its certificate is a quorum
//! of the validators of that height for exactly that block.

use std::collections::BTreeSet;

use vstd::prelude::*;

use crate::bytes::same_bytes;
use crate::chain;
use crate::chain::{Chain, ChainView};
use crate::consensus;
use crate::consensus::{Commit, CommitView, SlashEvidence, StakeOp};
use crate::driver;
use crate::gossip;
use crate::gossip::{GossipMsg, MsgView, MAX_BATCH, MAX_PROOF_BATCH};
use crate::graph;
use crate::graph::{Assessment, Judge};
use crate::ledger;
use crate::light;
use crate::light::{CertifiedHeader, CertifiedView, EntryView, ProofEntry, ProofKind};
use crate::mempool;
use crate::mempool::{Mempool, PoolView};
use crate::ordered;
use crate::ordered::sorted_members;
use crate::parse;
use crate::roots;
use crate::seen::DigestSet;
use crate::state;
use crate::state::{ChainError, ChainState, Genesis, GenesisView, StateView};
use crate::tx;
use crate::tx::{Block, BlockView, SubmissionTx, TxView};
use crate::validator;
use crate::Digest;

verus! {

/// Messages with the peer that each is for.
pub type Outbox = Vec<(u64, GossipMsg)>;

/// What outbound messages hold.
pub open spec fn outbox_view(s: Seq<(u64, GossipMsg)>) -> Seq<(u64, MsgView)> {
    s.map_values(|p: (u64, GossipMsg)| (p.0, p.1@))
}

/// One peer.
pub struct GossipNode {
    pub id: u64,
    pub chain: Chain,
    pub mempool: Mempool,
    /// The certified chain, in height order: the block and the certificate at
    /// position `i` are those of height `i + 1`.
    pub blocks: Vec<Block>,
    pub certs: Vec<Commit>,
    /// Hashes of the submissions, evidence and requests that have passed through.
    pub seen_tx: DigestSet,
    pub seen_evidence: DigestSet,
    pub seen_stake_op: DigestSet,
    /// Evidence and requests waiting for the next block that this node proposes.
    pub pending_evidence: Vec<SlashEvidence>,
    pub pending_stake_ops: Vec<StakeOp>,
    pub peers: BTreeSet<u64>,
}

#[verifier::ext_equal]
pub struct NodeView {
    pub id: u64,
    pub chain: ChainView,
    pub pool: PoolView,
    pub blocks: Seq<BlockView>,
    pub certs: Seq<CommitView>,
    pub seen_tx: Set<Digest>,
    pub seen_evidence: Set<Digest>,
    pub seen_stake_op: Set<Digest>,
    pub pending_evidence: Seq<SlashEvidence>,
    pub pending_stake_ops: Seq<StakeOp>,
    pub peers: Set<u64>,
}

impl View for GossipNode {
    type V = NodeView;

    open spec fn view(&self) -> NodeView {
        NodeView {
            id: self.id,
            chain: self.chain@,
            pool: self.mempool@,
            blocks: chain::blocks_view(self.blocks@),
            certs: driver::certs_view(self.certs@),
            seen_tx: self.seen_tx@,
            seen_evidence: self.seen_evidence@,
            seen_stake_op: self.seen_stake_op@,
            pending_evidence: self.pending_evidence@,
            pending_stake_ops: self.pending_stake_ops@,
            peers: self.peers@,
        }
    }
}

// --- what a node does ---------------------------------------------------------

/// The listed peers, without the node itself.
pub open spec fn others(id: u64, peers: Seq<u64>) -> Set<u64> {
    Set::new(|p: u64| peers.contains(p) && p != id)
}

/// A node that holds nothing but its genesis.
pub open spec fn fresh_node(
    id: u64,
    g: GenesisView,
    max_txs: usize,
    peers: Seq<u64>,
) -> NodeView {
    NodeView {
        id,
        chain: chain::genesis_chain(g),
        pool: PoolView { max_txs, txs: Seq::empty() },
        blocks: Seq::empty(),
        certs: Seq::empty(),
        seen_tx: Set::empty(),
        seen_evidence: Set::empty(),
        seen_stake_op: Set::empty(),
        pending_evidence: Seq::empty(),
        pending_stake_ops: Seq::empty(),
        peers: others(id, peers),
    }
}

/// The node after it applied a certified block, if it does.
#[verifier::opaque]
pub open spec fn accepted(
    judge: Judge,
    n: NodeView,
    b: BlockView,
    cert: CommitView,
) -> Option<NodeView> {
    if b.height != n.chain.state.height + 1 || b.prev_hash != n.chain.head {
        None
    } else if cert.height != b.height || cert.block_hash != tx::block_hash(b) {
        None
    } else if consensus::certified(n.chain.state.validators, cert) is Err {
        None
    } else {
        match chain::committed(judge, n.chain, b) {
            Err(_) => None,
            Ok((grown, _)) => Some(
                NodeView {
                    chain: grown,
                    pool: PoolView { txs: mempool::without(n.pool.txs, b.txs), ..n.pool },
                    blocks: n.blocks.push(b),
                    certs: n.certs.push(cert),
                    ..n
                },
            ),
        }
    }
}

/// The node after a run of certified blocks, and how many of them it applied: it
/// stops at the first that it refuses.
pub open spec fn absorbed(
    judge: Judge,
    n: NodeView,
    batch: Seq<(BlockView, CommitView)>,
) -> (NodeView, nat)
    decreases batch.len(),
{
    if batch.len() == 0 {
        (n, 0)
    } else {
        match accepted(judge, n, batch[0].0, batch[0].1) {
            None => (n, 0),
            Some(next) => {
                let (end, k) = absorbed(judge, next, batch.skip(1));
                (end, k + 1)
            },
        }
    }
}

/// Blocks paired with certificates.
pub open spec fn paired(bs: Seq<BlockView>, cs: Seq<CommitView>) -> Seq<(BlockView, CommitView)> {
    Seq::new(bs.len(), |i: int| (bs[i], cs[i]))
}

/// The certified blocks from `height` onward, at most a batch of them.
pub open spec fn batch_from(n: NodeView, height: u64) -> Seq<(BlockView, CommitView)> {
    if height == 0 || height > n.blocks.len() {
        Seq::empty()
    } else {
        let rest = paired(n.blocks, n.certs).skip(height - 1);
        if rest.len() > MAX_BATCH {
            rest.take(MAX_BATCH as int)
        } else {
            rest
        }
    }
}

/// The header of a certified block.
pub open spec fn certified_header(p: (BlockView, CommitView)) -> CertifiedView {
    CertifiedView { header: light::header_of(p.0), cert: p.1 }
}

/// The headers of certified blocks.
pub open spec fn headers_of(batch: Seq<(BlockView, CommitView)>) -> Seq<CertifiedView> {
    batch.map_values(|p: (BlockView, CommitView)| certified_header(p))
}

/// A message to each of the given peers, in order of their ids.
pub open spec fn to_each(peers: Set<u64>, m: MsgView) -> Seq<(u64, MsgView)> {
    ordered::in_order(peers).map_values(|p: u64| (p, m))
}

/// The entry of the given kind and id, with its inclusion proof; none for an unknown
/// one. Graph nodes are asked for by their position.
pub open spec fn entry_for(st: StateView, kind: ProofKind, id: u64) -> Option<EntryView> {
    match kind {
        ProofKind::Account => match roots::account_path(st, id) {
            None => None,
            Some(path) => Some(EntryView::Account { id, account: st.accounts[id], path }),
        },
        ProofKind::Reviewer => match roots::standing_path(st, id) {
            None => None,
            Some(path) => Some(
                EntryView::Reviewer { id, reputation: st.reviewers[id], path },
            ),
        },
        ProofKind::Validator => match validator::member_path(st.validators, id) {
            None => None,
            Some(path) => Some(
                EntryView::Validator {
                    id,
                    validator: validator::find(st.validators, id)->0,
                    path,
                },
            ),
        },
        ProofKind::GraphNode => match roots::graph_path(st, id as int) {
            None => None,
            Some(path) => Some(
                EntryView::GraphNode {
                    node_id: st.graph[id as int].node_id,
                    graph_node: st.graph[id as int],
                    path,
                },
            ),
        },
    }
}

/// The entries for a whole request.
pub open spec fn entries_for(st: StateView, items: Seq<(ProofKind, u64)>) -> Seq<
    Option<EntryView>,
> {
    items.map_values(|q: (ProofKind, u64)| entry_for(st, q.0, q.1))
}

/// A submission taken in and passed on to `to`, if it passes the checks of the
/// present state.
pub open spec fn flooded_tx(n: NodeView, t: TxView, to: Set<u64>) -> (
    NodeView,
    Seq<(u64, MsgView)>,
) {
    let marked = NodeView { seen_tx: n.seen_tx.insert(tx::tx_hash(t)), ..n };
    if state::check_tx(n.chain.state, t) is Err {
        (marked, Seq::empty())
    } else {
        (
            NodeView {
                pool: PoolView { txs: mempool::added(n.pool.txs, t), ..n.pool },
                ..marked
            },
            to_each(to, MsgView::Tx(t)),
        )
    }
}

/// Evidence staged and passed on to `to`.
pub open spec fn flooded_evidence(n: NodeView, ev: SlashEvidence, to: Set<u64>) -> (
    NodeView,
    Seq<(u64, MsgView)>,
) {
    (
        NodeView {
            seen_evidence: n.seen_evidence.insert(consensus::evidence_hash(ev)),
            pending_evidence: n.pending_evidence.push(ev),
            ..n
        },
        to_each(to, MsgView::Evidence(ev)),
    )
}

/// A request staged and passed on to `to`.
pub open spec fn flooded_stake_op(n: NodeView, op: StakeOp, to: Set<u64>) -> (
    NodeView,
    Seq<(u64, MsgView)>,
) {
    (
        NodeView {
            seen_stake_op: n.seen_stake_op.insert(consensus::stake_op_hash(op)),
            pending_stake_ops: n.pending_stake_ops.push(op),
            ..n
        },
        to_each(to, MsgView::StakeOp(op)),
    )
}

/// What a node does with a batch of certified blocks: it applies what it can, tells
/// its other peers how tall it is now, and asks for more after a full batch.
pub open spec fn on_blocks(
    judge: Judge,
    n: NodeView,
    from: u64,
    batch: Seq<(BlockView, CommitView)>,
) -> (NodeView, Seq<(u64, MsgView)>) {
    let (after, applied) = absorbed(judge, n, batch);
    let height = after.chain.state.height;
    let news = to_each(after.peers.remove(from), MsgView::Status { height });
    if applied == 0 {
        (after, Seq::empty())
    } else if applied == batch.len() && batch.len() == MAX_BATCH && height < u64::MAX {
        (after, news.push((from, MsgView::GetBlocks { from: (height + 1) as u64 })))
    } else {
        (after, news)
    }
}

/// What a node that knows the sender does with a message.
pub open spec fn handled(judge: Judge, n: NodeView, from: u64, m: MsgView) -> (
    NodeView,
    Seq<(u64, MsgView)>,
) {
    let height = n.chain.state.height;
    match m {
        MsgView::Status { height: theirs } => if theirs > height {
            (n, seq![(from, MsgView::GetBlocks { from: (height + 1) as u64 })])
        } else if theirs < height {
            (n, seq![(from, MsgView::Blocks(batch_from(n, (theirs + 1) as u64)))])
        } else {
            (n, Seq::empty())
        },
        MsgView::GetBlocks { from: h } => if batch_from(n, h).len() == 0 {
            (n, Seq::empty())
        } else {
            (n, seq![(from, MsgView::Blocks(batch_from(n, h)))])
        },
        MsgView::Blocks(batch) => on_blocks(judge, n, from, batch),
        MsgView::Tx(t) => if n.seen_tx.contains(tx::tx_hash(t)) {
            (n, Seq::empty())
        } else {
            flooded_tx(n, t, n.peers.remove(from))
        },
        MsgView::Evidence(ev) => if !consensus::conflicting(ev) || n.seen_evidence.contains(
            consensus::evidence_hash(ev),
        ) {
            (n, Seq::empty())
        } else {
            flooded_evidence(n, ev, n.peers.remove(from))
        },
        MsgView::StakeOp(op) => if n.seen_stake_op.contains(consensus::stake_op_hash(op)) {
            (n, Seq::empty())
        } else {
            flooded_stake_op(n, op, n.peers.remove(from))
        },
        MsgView::GetHeaders { from: h } => if batch_from(n, h).len() == 0 {
            (n, Seq::empty())
        } else {
            (n, seq![(from, MsgView::Headers(headers_of(batch_from(n, h))))])
        },
        MsgView::Headers(_) => (n, Seq::empty()),
        MsgView::GetProof { items } => if items.len() > MAX_PROOF_BATCH {
            (n, Seq::empty())
        } else {
            (n, seq![(from, MsgView::Proof { items: entries_for(n.chain.state, items) })])
        },
        MsgView::Proof { .. } => (n, Seq::empty()),
    }
}

/// What a node does with a message: it remembers the sender and handles it.
pub open spec fn reacted(judge: Judge, n: NodeView, from: u64, m: MsgView) -> (
    NodeView,
    Seq<(u64, MsgView)>,
) {
    handled(judge, NodeView { peers: n.peers.insert(from), ..n }, from, m)
}

/// Whether the retained blocks are the chain's, each with a certificate that is a
/// quorum of the validators for exactly that block.
pub open spec fn is_certified_node(n: NodeView) -> bool {
    &&& n.blocks.len() == n.chain.state.height
    &&& n.certs.len() == n.blocks.len()
    &&& n.chain.block_hashes.len() == n.blocks.len() + 1
    &&& n.chain.head == n.chain.block_hashes.last()
    &&& forall|i: int|
        0 <= i < n.blocks.len() ==> {
            &&& (#[trigger] n.blocks[i]).height == i + 1
            &&& tx::block_hash(n.blocks[i]) == n.chain.block_hashes[i + 1]
            &&& n.certs[i].height == i + 1
            &&& n.certs[i].block_hash == n.chain.block_hashes[i + 1]
            &&& consensus::certified(n.chain.state.validators, n.certs[i]) is Ok
        }
}

// --- laws ---------------------------------------------------------------------

/// A fresh node is certified.
pub proof fn law_fresh_node_is_certified(
    id: u64,
    g: GenesisView,
    max_txs: usize,
    peers: Seq<u64>,
)
    ensures
        is_certified_node(fresh_node(id, g, max_txs, peers)),
{
}

/// Applying a certified block keeps the node certified and adds one to its height.
pub proof fn law_accepted_stays_certified(
    judge: Judge,
    n: NodeView,
    b: BlockView,
    cert: CommitView,
)
    requires
        is_certified_node(n),
    ensures
        accepted(judge, n, b, cert) matches Some(after) ==> {
            &&& is_certified_node(after)
            &&& after.chain.state.height == n.chain.state.height + 1
            &&& after.chain.state.validators == n.chain.state.validators
            &&& after.chain.head == tx::block_hash(b)
            &&& after.peers == n.peers
        },
{
    reveal(accepted);
    if let Some(after) = accepted(judge, n, b, cert) {
        state::lemma_applied_txs(
            judge,
            StateView { now_days: b.timestamp_days, ..n.chain.state },
            b.txs,
        );
        assert forall|i: int| 0 <= i < after.blocks.len() implies {
            &&& (#[trigger] after.blocks[i]).height == i + 1
            &&& tx::block_hash(after.blocks[i]) == after.chain.block_hashes[i + 1]
            &&& after.certs[i].height == i + 1
            &&& after.certs[i].block_hash == after.chain.block_hashes[i + 1]
            &&& consensus::certified(after.chain.state.validators, after.certs[i]) is Ok
        } by {
            if i < n.blocks.len() {
                assert(after.blocks[i] == n.blocks[i]);
            }
        }
    }
}

/// A run of certified blocks keeps the node certified and adds to its height as many
/// as it applied.
pub proof fn law_absorbed_stays_certified(
    judge: Judge,
    n: NodeView,
    batch: Seq<(BlockView, CommitView)>,
)
    requires
        is_certified_node(n),
    ensures
        is_certified_node(absorbed(judge, n, batch).0),
        absorbed(judge, n, batch).0.chain.state.height == n.chain.state.height + absorbed(
            judge,
            n,
            batch,
        ).1,
        absorbed(judge, n, batch).1 <= batch.len(),
        absorbed(judge, n, batch).0.peers == n.peers,
    decreases batch.len(),
{
    if batch.len() > 0 {
        law_accepted_stays_certified(judge, n, batch[0].0, batch[0].1);
        if let Some(next) = accepted(judge, n, batch[0].0, batch[0].1) {
            law_absorbed_stays_certified(judge, next, batch.skip(1));
        }
    }
}

/// No message of any peer leaves a node uncertified, nor shortens its chain.
pub proof fn law_messages_keep_nodes_certified(judge: Judge, n: NodeView, from: u64, m: MsgView)
    requires
        is_certified_node(n),
    ensures
        is_certified_node(reacted(judge, n, from, m).0),
        reacted(judge, n, from, m).0.chain.state.height >= n.chain.state.height,
{
    let known = NodeView { peers: n.peers.insert(from), ..n };
    lemma_certified_parts(n, known);
    if let MsgView::Blocks(batch) = m {
        law_absorbed_stays_certified(judge, known, batch);
    } else {
        lemma_certified_parts(n, reacted(judge, n, from, m).0);
    }
}

proof fn lemma_certified_parts(n: NodeView, m: NodeView)
    requires
        is_certified_node(n),
        m.chain == n.chain,
        m.blocks == n.blocks,
        m.certs == n.certs,
    ensures
        is_certified_node(m),
{
}

/// Whether a node's chain is what its retained blocks replay to.
pub open spec fn replays(judge: Judge, g: GenesisView, n: NodeView) -> bool {
    chain::replayed(judge, chain::genesis_chain(g), n.blocks) == Ok::<ChainView, ChainError>(n.chain)
}

proof fn lemma_accepted_replays(
    judge: Judge,
    g: GenesisView,
    n: NodeView,
    b: BlockView,
    cert: CommitView,
)
    requires
        replays(judge, g, n),
    ensures
        accepted(judge, n, b, cert) matches Some(after) ==> replays(judge, g, after),
{
    reveal(accepted);
    assert(n.blocks.push(b).drop_last() =~= n.blocks);
}

/// A run of certified blocks keeps the chain what the retained blocks replay to.
pub proof fn lemma_absorbed_replays(
    judge: Judge,
    g: GenesisView,
    n: NodeView,
    batch: Seq<(BlockView, CommitView)>,
)
    requires
        replays(judge, g, n),
    ensures
        replays(judge, g, absorbed(judge, n, batch).0),
    decreases batch.len(),
{
    if batch.len() > 0 {
        lemma_accepted_replays(judge, g, n, batch[0].0, batch[0].1);
        if let Some(next) = accepted(judge, n, batch[0].0, batch[0].1) {
            lemma_absorbed_replays(judge, g, next, batch.skip(1));
        }
    }
}

/// Whatever messages a node receives, its chain stays what its retained blocks
/// replay to.
pub proof fn law_messages_keep_nodes_replayable(
    judge: Judge,
    g: GenesisView,
    n: NodeView,
    from: u64,
    m: MsgView,
)
    requires
        replays(judge, g, n),
    ensures
        replays(judge, g, reacted(judge, n, from, m).0),
{
    if let MsgView::Blocks(batch) = m {
        lemma_absorbed_replays(
            judge,
            g,
            NodeView { peers: n.peers.insert(from), ..n },
            batch,
        );
    }
}

/// A node whose chain replays from a genesis whose accounts hold no more than fits a
/// 64-bit word has its supply conserved.
pub proof fn law_nodes_conserve(judge: Judge, g: GenesisView, n: NodeView)
    requires
        replays(judge, g, n),
        state::endowment(g.accounts) <= u64::MAX,
    ensures
        ledger::conserved(n.chain.state),
{
    chain::law_supply_is_conserved(judge, g, n.blocks);
}

/// Nodes with the same retained blocks have the same chain, head and state.
pub proof fn law_same_blocks_same_chain(judge: Judge, g: GenesisView, a: NodeView, b: NodeView)
    requires
        replays(judge, g, a),
        replays(judge, g, b),
        a.blocks == b.blocks,
    ensures
        a.chain == b.chain,
        roots::digest_of(a.chain.state) == roots::digest_of(b.chain.state),
{
}

/// A block that a certified node retains is accepted by a node that holds exactly
/// the blocks before it.
proof fn lemma_next_is_accepted(judge: Judge, g: GenesisView, a: NodeView, b: NodeView)
    requires
        is_certified_node(a),
        replays(judge, g, a),
        replays(judge, g, b),
        b.blocks.len() < a.blocks.len(),
        b.blocks == a.blocks.take(b.blocks.len() as int),
    ensures
        ({
            let k = b.blocks.len() as int;
            accepted(judge, b, a.blocks[k], a.certs[k]) matches Some(next) && next.blocks
                == a.blocks.take(k + 1)
        }),
{
    reveal(accepted);
    let start = chain::genesis_chain(g);
    let k = b.blocks.len() as int;
    let more = a.blocks.take(k + 1);
    assert(more.drop_last() =~= b.blocks);
    assert(more.last() == a.blocks[k]);
    if chain::replayed(judge, start, more) is Err {
        chain::lemma_replayed_prefix(judge, start, a.blocks, k + 1);
    }
    chain::law_replay_links(judge, start, b.blocks);
    chain::lemma_replay_keeps_validators(judge, start, a.blocks);
    chain::lemma_replay_keeps_validators(judge, start, b.blocks);
    assert(a.blocks[k].height == k + 1);
    assert(b.blocks.push(a.blocks[k]) =~= more);
}

/// Certified blocks that continue a node's own are all applied.
pub proof fn lemma_absorbs_all(
    judge: Judge,
    g: GenesisView,
    a: NodeView,
    b: NodeView,
    batch: Seq<(BlockView, CommitView)>,
)
    requires
        is_certified_node(a),
        replays(judge, g, a),
        replays(judge, g, b),
        b.blocks.len() + batch.len() <= a.blocks.len(),
        b.blocks == a.blocks.take(b.blocks.len() as int),
        forall|i: int|
            0 <= i < batch.len() ==> #[trigger] batch[i] == (
                a.blocks[b.blocks.len() + i],
                a.certs[b.blocks.len() + i],
            ),
    ensures
        absorbed(judge, b, batch).1 == batch.len(),
        absorbed(judge, b, batch).0.blocks == a.blocks.take(
            (b.blocks.len() + batch.len()) as int,
        ),
    decreases batch.len(),
{
    if batch.len() > 0 {
        assert(batch[0] == (a.blocks[b.blocks.len() as int], a.certs[b.blocks.len() as int]));
        lemma_next_is_accepted(judge, g, a, b);
        lemma_accepted_replays(judge, g, b, batch[0].0, batch[0].1);
        let next = accepted(judge, b, batch[0].0, batch[0].1)->0;
        let tail = batch.skip(1);
        assert forall|i: int| 0 <= i < tail.len() implies #[trigger] tail[i] == (
            a.blocks[next.blocks.len() + i],
            a.certs[next.blocks.len() + i],
        ) by {
            assert(tail[i] == batch[i + 1]);
        }
        lemma_absorbs_all(judge, g, a, next, tail);
    }
}

/// The certificates of the applied blocks are retained with them.
pub proof fn lemma_absorbs_certs(
    judge: Judge,
    n: NodeView,
    batch: Seq<(BlockView, CommitView)>,
)
    ensures
        absorbed(judge, n, batch).1 <= batch.len(),
        absorbed(judge, n, batch).0.certs == n.certs + Seq::new(
            absorbed(judge, n, batch).1,
            |i: int| batch[i].1,
        ),
    decreases batch.len(),
{
    reveal(accepted);
    if batch.len() > 0 {
        if let Some(next) = accepted(judge, n, batch[0].0, batch[0].1) {
            let tail = batch.skip(1);
            lemma_absorbs_certs(judge, next, tail);
            let k = absorbed(judge, next, tail).1;
            assert(next.certs + Seq::new(k, |i: int| tail[i].1) =~= n.certs + Seq::new(
                k + 1,
                |i: int| batch[i].1,
            ));
        } else {
            assert(n.certs + Seq::new(0, |i: int| batch[i].1) =~= n.certs);
        }
    } else {
        assert(n.certs + Seq::new(0, |i: int| batch[i].1) =~= n.certs);
    }
}

/// A node that lags behind a peer of the same genesis catches up with what the peer
/// sends: it applies the whole batch, and if that reaches the peer's height it has
/// the peer's chain, head and state.
pub proof fn law_sync_converges(judge: Judge, g: GenesisView, a: NodeView, b: NodeView)
    requires
        is_certified_node(a),
        replays(judge, g, a),
        replays(judge, g, b),
        b.blocks.len() < a.blocks.len(),
        b.blocks == a.blocks.take(b.blocks.len() as int),
    ensures
        ({
            let batch = batch_from(a, (b.blocks.len() + 1) as u64);
            let (after, applied) = absorbed(judge, b, batch);
            &&& applied == batch.len()
            &&& applied > 0
            &&& after.blocks == a.blocks.take((b.blocks.len() + applied) as int)
            &&& a.blocks.len() <= b.blocks.len() + MAX_BATCH ==> after.chain == a.chain
        }),
{
    let k = b.blocks.len();
    let batch = batch_from(a, (k + 1) as u64);
    assert(k + 1 <= u64::MAX) by {
        assert(a.blocks.len() == a.chain.state.height);
    }
    lemma_absorbs_all(judge, g, a, b, batch);
    lemma_absorbed_replays(judge, g, b, batch);
    if a.blocks.len() <= k + MAX_BATCH {
        assert(a.blocks.take((k + batch.len()) as int) =~= a.blocks);
        law_same_blocks_same_chain(judge, g, a, absorbed(judge, b, batch).0);
    }
}

/// Re-delivery is a no-op: a submission that a node has reacted to once is neither
/// taken in nor passed on again.
pub proof fn law_a_tx_floods_once(judge: Judge, n: NodeView, from: u64, again: u64, t: TxView)
    ensures
        ({
            let after = reacted(judge, n, from, MsgView::Tx(t)).0;
            let twice = reacted(judge, after, again, MsgView::Tx(t));
            &&& twice.1 == Seq::<(u64, MsgView)>::empty()
            &&& twice.0 == (NodeView { peers: after.peers.insert(again), ..after })
        }),
{
}

/// The same for evidence, well-formed or not.
pub proof fn law_evidence_floods_once(
    judge: Judge,
    n: NodeView,
    from: u64,
    again: u64,
    ev: SlashEvidence,
)
    ensures
        ({
            let after = reacted(judge, n, from, MsgView::Evidence(ev)).0;
            let twice = reacted(judge, after, again, MsgView::Evidence(ev));
            &&& twice.1 == Seq::<(u64, MsgView)>::empty()
            &&& twice.0 == (NodeView { peers: after.peers.insert(again), ..after })
        }),
{
}

/// The same for bonding requests.
pub proof fn law_a_stake_op_floods_once(
    judge: Judge,
    n: NodeView,
    from: u64,
    again: u64,
    op: StakeOp,
)
    ensures
        ({
            let after = reacted(judge, n, from, MsgView::StakeOp(op)).0;
            let twice = reacted(judge, after, again, MsgView::StakeOp(op));
            &&& twice.1 == Seq::<(u64, MsgView)>::empty()
            &&& twice.0 == (NodeView { peers: after.peers.insert(again), ..after })
        }),
{
}

/// Every entry that a node serves opens the root it is committed to: accounts,
/// reputations and graph nodes the root of the state, validators the root of the
/// validator set.
pub proof fn law_served_entries_open(st: StateView, kind: ProofKind, id: u64)
    requires
        st.accounts.dom().finite(),
        st.reviewers.dom().finite(),
    ensures
        entry_for(st, kind, id) matches Some(e) ==> {
            &&& e.kind() == kind
            &&& e.opens(
                if kind == ProofKind::Validator {
                    validator::set_root(st.validators)
                } else {
                    roots::root_of(st)
                },
            )
        },
{
    match kind {
        ProofKind::Account => {
            if st.accounts.contains_key(id) {
                roots::law_account_path_leads_to_the_root(st, id);
            }
        },
        ProofKind::Reviewer => {
            if st.reviewers.contains_key(id) {
                roots::law_standing_path_leads_to_the_root(st, id);
            }
        },
        ProofKind::Validator => {
            validator::lemma_place(st.validators, id);
            if validator::find(st.validators, id) is Some {
                validator::law_member_path_leads_to_the_root(st.validators, id);
            }
        },
        ProofKind::GraphNode => {
            if id < st.graph.len() {
                roots::law_graph_path_leads_to_the_root(st, id as int);
            }
        },
    }
}

// --- the node -----------------------------------------------------------------

/// One message.
pub(crate) fn one_message(p: u64, m: GossipMsg) -> (r: Outbox)
    ensures
        outbox_view(r@) == seq![(p, m@)],
{
    let mut out: Outbox = Vec::new();
    out.push((p, m));
    assert(outbox_view(out@) =~= seq![(p, m@)]);
    out
}

/// No message.
pub(crate) fn no_message() -> (r: Outbox)
    ensures
        outbox_view(r@) == Seq::<(u64, MsgView)>::empty(),
{
    let out: Outbox = Vec::new();
    assert(outbox_view(out@) =~= Seq::<(u64, MsgView)>::empty());
    out
}

/// The entry of the given kind and id, with its inclusion proof.
fn prove_entry(st: &ChainState, kind: ProofKind, id: u64) -> (r: Option<ProofEntry>)
    ensures
        parse::viewed_option(r) == entry_for(st@, kind, id),
{
    match kind {
        ProofKind::Account => match (st.account_proof(id), st.accounts.get(&id)) {
            (Some(path), Some(a)) => Some(ProofEntry::Account { id, account: *a, path }),
            _ => None,
        },
        ProofKind::Reviewer => match (st.reviewer_proof(id), st.reviewers.get(&id)) {
            (Some(path), Some(rep)) => Some(
                ProofEntry::Reviewer { id, reputation: *rep, path },
            ),
            _ => None,
        },
        ProofKind::Validator => match (st.validators.proof_of(id), st.validators.get(id)) {
            (Some(path), Some(v)) => Some(
                ProofEntry::Validator { id, validator: *v, path },
            ),
            _ => None,
        },
        ProofKind::GraphNode => {
            if id >= st.graph.len() as u64 {
                return None;
            }
            let index: usize = id as usize;
            match st.graph_node_proof(index) {
                Some(path) => {
                    let n = st.graph.nodes[index];
                    Some(ProofEntry::GraphNode { node_id: n.node_id, graph_node: n, path })
                },
                None => None,
            }
        },
    }
}

fn prove_entries(st: &ChainState, items: &Vec<(ProofKind, u64)>) -> (r: Vec<Option<ProofEntry>>)
    ensures
        gossip::entries_view(r@) == entries_for(st@, items@),
{
    let mut out: Vec<Option<ProofEntry>> = Vec::new();
    let ghost all = entries_for(st@, items@);
    let mut i: usize = 0;
    while i < items.len()
        invariant
            i <= items.len(),
            all == entries_for(st@, items@),
            gossip::entries_view(out@) == all.take(i as int),
        decreases items.len() - i,
    {
        let ghost before = gossip::entries_view(out@);
        let x = prove_entry(st, items[i].0, items[i].1);
        out.push(x);
        assert(gossip::entries_view(out@) =~= before.push(parse::viewed_option(x)));
        assert(all.take(i + 1) =~= before.push(all[i as int]));
        i += 1;
    }
    assert(all.take(i as int) =~= all);
    out
}

impl GossipNode {
    /// Whether the pool is in order and the node is certified.
    pub open spec fn wf(&self) -> bool {
        &&& self.mempool.wf()
        &&& is_certified_node(self@)
    }

    /// A node that holds nothing but its genesis and knows the given peers.
    pub fn new(id: u64, g: Genesis, max_txs: usize, peers: &[u64]) -> (r: GossipNode)
        requires
            state::power_fits(g@),
        ensures
            r.wf(),
            r@ == fresh_node(id, g@, max_txs, peers@),
    {
        let r = GossipNode {
            id,
            chain: Chain::new(g),
            mempool: Mempool::new(max_txs),
            blocks: Vec::new(),
            certs: Vec::new(),
            seen_tx: DigestSet::new(),
            seen_evidence: DigestSet::new(),
            seen_stake_op: DigestSet::new(),
            pending_evidence: Vec::new(),
            pending_stake_ops: Vec::new(),
            peers: known_peers(id, peers),
        };
        assert(r@ =~= fresh_node(id, g@, max_txs, peers@));
        r
    }

    /// The height of the chain.
    pub fn height(&self) -> (r: u64)
        ensures
            r == self@.chain.state.height,
    {
        self.chain.state.height
    }

    /// The hash of the last block.
    pub fn head(&self) -> (r: Digest)
        ensures
            r == self@.chain.head,
    {
        self.chain.head
    }

    /// The certified blocks, in height order.
    pub fn blocks(&self) -> (r: &[Block])
        ensures
            chain::blocks_view(r@) == self@.blocks,
    {
        self.blocks.as_slice()
    }

    /// The certificates, in height order.
    pub fn certificates(&self) -> (r: &[Commit])
        ensures
            driver::certs_view(r@) == self@.certs,
    {
        self.certs.as_slice()
    }

    /// The evidence waiting for the next proposed block.
    pub fn pending_evidence(&self) -> (r: &[SlashEvidence])
        ensures
            r@ == self@.pending_evidence,
    {
        self.pending_evidence.as_slice()
    }

    /// The requests waiting for the next proposed block.
    pub fn pending_stake_ops(&self) -> (r: &[StakeOp])
        ensures
            r@ == self@.pending_stake_ops,
    {
        self.pending_stake_ops.as_slice()
    }

    /// Hands over the waiting evidence. It stays known, so it is not staged again if
    /// it comes back.
    pub fn take_pending_evidence(&mut self) -> (r: Vec<SlashEvidence>)
        ensures
            r@ == old(self)@.pending_evidence,
            final(self)@ == (NodeView {
                pending_evidence: Seq::<SlashEvidence>::empty(),
                ..old(self)@
            }),
            old(self).wf() ==> final(self).wf(),
    {
        let mut r: Vec<SlashEvidence> = Vec::new();
        std::mem::swap(&mut r, &mut self.pending_evidence);
        r
    }

    /// Hands over the waiting requests.
    pub fn take_pending_stake_ops(&mut self) -> (r: Vec<StakeOp>)
        ensures
            r@ == old(self)@.pending_stake_ops,
            final(self)@ == (NodeView {
                pending_stake_ops: Seq::<StakeOp>::empty(),
                ..old(self)@
            }),
            old(self).wf() ==> final(self).wf(),
    {
        let mut r: Vec<StakeOp> = Vec::new();
        std::mem::swap(&mut r, &mut self.pending_stake_ops);
        r
    }

    /// Loads a chain that is certified already. Each block takes the same way as one
    /// that came by gossip, so nothing without a quorum gets in. Whether all of them
    /// were applied; lists of different lengths change nothing.
    pub fn load_certified<F: Fn(&Assessment) -> u32>(
        &mut self,
        engine: &F,
        blocks: &[Block],
        certs: &[Commit],
    ) -> (r: bool)
        requires
            graph::is_function(*engine),
            old(self).wf(),
        ensures
            final(self).wf(),
            ({
                let batch = paired(chain::blocks_view(blocks@), driver::certs_view(certs@));
                let (end, n) = absorbed(graph::judge(*engine), old(self)@, batch);
                if blocks@.len() == certs@.len() {
                    final(self)@ == end && r == (n == blocks@.len())
                } else {
                    final(self)@ == old(self)@ && !r
                }
            }),
    {
        if blocks.len() != certs.len() {
            return false;
        }
        let ghost judge = graph::judge(*engine);
        let ghost batch = paired(chain::blocks_view(blocks@), driver::certs_view(certs@));
        let mut i: usize = 0;
        assert(batch.skip(0) =~= batch);
        while i < blocks.len()
            invariant
                i <= blocks.len(),
                blocks@.len() == certs@.len(),
                self.wf(),
                graph::is_function(*engine),
                judge == graph::judge(*engine),
                batch == paired(chain::blocks_view(blocks@), driver::certs_view(certs@)),
                absorbed(judge, old(self)@, batch).0 == absorbed(
                    judge,
                    self@,
                    batch.skip(i as int),
                ).0,
                absorbed(judge, old(self)@, batch).1 == i + absorbed(
                    judge,
                    self@,
                    batch.skip(i as int),
                ).1,
            decreases blocks.len() - i,
        {
            assert(batch.skip(i as int).skip(1) =~= batch.skip(i + 1));
            if !self.apply_certified(engine, blocks[i].clone(), certs[i].clone()) {
                return false;
            }
            i += 1;
        }
        true
    }

    /// The certified blocks from `height` onward, at most a batch.
    fn batch_from(&self, height: u64) -> (r: Vec<(Block, Commit)>)
        requires
            self.wf(),
        ensures
            gossip::batch_view(r@) == batch_from(self@, height),
    {
        let mut out: Vec<(Block, Commit)> = Vec::new();
        let ghost all = batch_from(self@, height);
        assert(gossip::batch_view(out@) =~= Seq::<(BlockView, CommitView)>::empty());
        if height == 0 || height > self.blocks.len() as u64 {
            return out;
        }
        let start: usize = (height - 1) as usize;
        let mut n: usize = self.blocks.len() - start;
        if n > MAX_BATCH {
            n = MAX_BATCH;
        }
        let mut i: usize = 0;
        while i < n
            invariant
                i <= n,
                self.wf(),
                start == height - 1,
                start + n <= self.blocks.len(),
                all == batch_from(self@, height),
                all.len() == n,
                forall|j: int|
                    0 <= j < n ==> #[trigger] all[j] == (
                        self@.blocks[start + j],
                        self@.certs[start + j],
                    ),
                gossip::batch_view(out@) == all.take(i as int),
            decreases n - i,
        {
            let ghost before = gossip::batch_view(out@);
            let b = self.blocks[start + i].clone();
            let c = self.certs[start + i].clone();
            out.push((b, c));
            assert(gossip::batch_view(out@) =~= before.push((b@, c@)));
            assert(all.take(i + 1) =~= before.push(all[i as int]));
            i += 1;
        }
        assert(all.take(i as int) =~= all);
        out
    }

    /// The certified headers from `height` onward, at most a batch: the same blocks
    /// without their bodies.
    pub fn headers_from(&self, height: u64) -> (r: Vec<CertifiedHeader>)
        requires
            self.wf(),
        ensures
            gossip::headers_view(r@) == headers_of(batch_from(self@, height)),
    {
        let ghost all = headers_of(batch_from(self@, height));
        if height == 0 || height > self.blocks.len() as u64 {
            let out: Vec<CertifiedHeader> = Vec::new();
            assert(gossip::headers_view(out@) =~= all);
            return out;
        }
        let start: usize = (height - 1) as usize;
        let mut n: usize = self.blocks.len() - start;
        if n > MAX_BATCH {
            n = MAX_BATCH;
        }
        self.headers_between(start, n, Ghost(all))
    }

    /// The headers of all certified blocks.
    pub fn certified_headers(&self) -> (r: Vec<CertifiedHeader>)
        requires
            self.wf(),
        ensures
            gossip::headers_view(r@) == headers_of(paired(self@.blocks, self@.certs)),
    {
        let ghost all = headers_of(paired(self@.blocks, self@.certs));
        self.headers_between(0, self.blocks.len(), Ghost(all))
    }

    fn headers_between(&self, start: usize, n: usize, all: Ghost<Seq<CertifiedView>>) -> (r: Vec<
        CertifiedHeader,
    >)
        requires
            self.wf(),
            start + n <= self.blocks.len(),
            all@.len() == n,
            forall|j: int|
                0 <= j < n ==> #[trigger] all@[j] == certified_header(
                    (self@.blocks[start + j], self@.certs[start + j]),
                ),
        ensures
            gossip::headers_view(r@) == all@,
    {
        let mut out: Vec<CertifiedHeader> = Vec::new();
        let mut i: usize = 0;
        assert(gossip::headers_view(out@) =~= all@.take(0));
        while i < n
            invariant
                i <= n,
                self.wf(),
                start + n <= self.blocks.len(),
                all@.len() == n,
                forall|j: int|
                    0 <= j < n ==> #[trigger] all@[j] == certified_header(
                        (self@.blocks[start + j], self@.certs[start + j]),
                    ),
                gossip::headers_view(out@) == all@.take(i as int),
            decreases n - i,
        {
            let ghost before = gossip::headers_view(out@);
            let h = CertifiedHeader::from_certified(
                &self.blocks[start + i],
                &self.certs[start + i],
            );
            out.push(h);
            assert(gossip::headers_view(out@) =~= before.push(h@));
            assert(all@.take(i + 1) =~= before.push(all@[i as int]));
            i += 1;
        }
        assert(all@.take(i as int) =~= all@);
        out
    }

    /// Applies one certified block, trusting nothing: it must be the next height,
    /// extend the head, and carry a certificate for exactly this block that is a
    /// quorum of the validators of this height. Whether it was applied; a refused
    /// block changes nothing.
    pub fn apply_certified<F: Fn(&Assessment) -> u32>(
        &mut self,
        engine: &F,
        block: Block,
        cert: Commit,
    ) -> (r: bool)
        requires
            graph::is_function(*engine),
            old(self).wf(),
        ensures
            final(self).wf(),
            match accepted(graph::judge(*engine), old(self)@, block@, cert@) {
                Some(after) => r && final(self)@ == after,
                None => !r && final(self)@ == old(self)@,
            },
    {
        proof {
            reveal(accepted);
            law_accepted_stays_certified(graph::judge(*engine), self@, block@, cert@);
        }
        if self.height() == u64::MAX || block.height != self.height() + 1 || !same_bytes(
            &block.prev_hash,
            &self.chain.head,
        ) {
            return false;
        }
        if cert.height != block.height || !same_bytes(&cert.block_hash, &block.hash()) {
            return false;
        }
        let verdict = cert.verify(&self.chain.state.validators);
        if verdict.is_err() {
            return false;
        }
        let outcome = self.chain.commit(engine, &block);
        if outcome.is_err() {
            return false;
        }
        self.mempool.remove_included(&block);
        let ghost blocks = chain::blocks_view(self.blocks@);
        let ghost certs = driver::certs_view(self.certs@);
        let ghost bv = block@;
        let ghost cv = cert@;
        self.blocks.push(block);
        self.certs.push(cert);
        assert(chain::blocks_view(self.blocks@) =~= blocks.push(bv));
        assert(driver::certs_view(self.certs@) =~= certs.push(cv));
        true
    }

    /// A message to every peer but the excepted one, in order of their ids.
    fn broadcast(&self, m: GossipMsg, except: Option<u64>) -> (r: Outbox)
        ensures
            outbox_view(r@) == to_each(
                match except {
                    Some(p) => self@.peers.remove(p),
                    None => self@.peers,
                },
                m@,
            ),
    {
        let mut to = self.peers.clone();
        if let Some(p) = except {
            to.remove(&p);
        }
        let ids = sorted_members(&to);
        let ghost all = to_each(to@, m@);
        let mut out: Outbox = Vec::new();
        let mut i: usize = 0;
        while i < ids.len()
            invariant
                i <= ids.len(),
                ids@ == ordered::in_order(to@),
                all == to_each(to@, m@),
                outbox_view(out@) == all.take(i as int),
            decreases ids.len() - i,
        {
            let ghost before = outbox_view(out@);
            let copy = m.clone();
            out.push((ids[i], copy));
            assert(outbox_view(out@) =~= before.push((ids@[i as int], m@)));
            assert(all.take(i + 1) =~= before.push(all[i as int]));
            i += 1;
        }
        assert(all.take(i as int) =~= all);
        out
    }

    /// Takes in a submission that originates here, and floods it to all peers. One
    /// that fails the checks is dropped.
    pub fn submit_local(&mut self, t: SubmissionTx) -> (r: Outbox)
        requires
            old(self).wf(),
        ensures
            final(self).wf(),
            (final(self)@, outbox_view(r@)) == flooded_tx(old(self)@, t@, old(self)@.peers),
    {
        let h = t.hash();
        self.seen_tx.insert(h);
        let copy = t.clone();
        if self.mempool.insert(&self.chain, copy).is_err() {
            return no_message();
        }
        self.broadcast(GossipMsg::Tx(t), None)
    }

    /// Stages evidence that originates here, and floods it to all peers. Malformed
    /// evidence is dropped.
    pub fn submit_local_evidence(&mut self, ev: SlashEvidence) -> (r: Outbox)
        requires
            old(self).wf(),
        ensures
            final(self).wf(),
            (final(self)@, outbox_view(r@)) == if consensus::conflicting(ev) {
                flooded_evidence(old(self)@, ev, old(self)@.peers)
            } else {
                (old(self)@, Seq::empty())
            },
    {
        if !ev.is_well_formed() {
            return no_message();
        }
        let h = ev.hash();
        self.seen_evidence.insert(h);
        self.pending_evidence.push(ev);
        self.broadcast(GossipMsg::Evidence(ev), None)
    }

    /// Stages a request that originates here, and floods it to all peers.
    pub fn submit_local_stake_op(&mut self, op: StakeOp) -> (r: Outbox)
        requires
            old(self).wf(),
        ensures
            final(self).wf(),
            (final(self)@, outbox_view(r@)) == flooded_stake_op(
                old(self)@,
                op,
                old(self)@.peers,
            ),
    {
        let h = op.hash();
        self.seen_stake_op.insert(h);
        self.pending_stake_ops.push(op);
        self.broadcast(GossipMsg::StakeOp(op), None)
    }

    /// Tells every peer how tall the chain is.
    pub fn announce(&self) -> (r: Outbox)
        ensures
            outbox_view(r@) == to_each(
                self@.peers,
                MsgView::Status { height: self@.chain.state.height },
            ),
    {
        self.broadcast(GossipMsg::Status { height: self.height() }, None)
    }

    /// Reacts to a message from a peer, and returns what to send to whom.
    pub fn on_message<F: Fn(&Assessment) -> u32>(
        &mut self,
        engine: &F,
        from: u64,
        m: GossipMsg,
    ) -> (r: Outbox)
        requires
            graph::is_function(*engine),
            old(self).wf(),
        ensures
            final(self).wf(),
            final(self)@ == reacted(graph::judge(*engine), old(self)@, from, m@).0,
            outbox_view(r@) == reacted(graph::judge(*engine), old(self)@, from, m@).1,
    {
        self.peers.insert(from);
        match m {
            GossipMsg::Status { height } => {
                if height > self.height() {
                    one_message(from, GossipMsg::GetBlocks { from: self.height() + 1 })
                } else if height < self.height() {
                    let batch = self.batch_from(height + 1);
                    one_message(from, GossipMsg::Blocks(batch))
                } else {
                    no_message()
                }
            },
            GossipMsg::GetBlocks { from: h } => {
                let batch = self.batch_from(h);
                assert(gossip::batch_view(batch@).len() == batch@.len());
                if batch.len() == 0 {
                    no_message()
                } else {
                    one_message(from, GossipMsg::Blocks(batch))
                }
            },
            GossipMsg::Blocks(batch) => self.on_blocks(engine, from, batch),
            GossipMsg::Tx(t) => self.on_tx(from, t),
            GossipMsg::Evidence(ev) => self.on_evidence(from, ev),
            GossipMsg::StakeOp(op) => self.on_stake_op(from, op),
            GossipMsg::GetHeaders { from: h } => {
                let batch = self.headers_from(h);
                assert(gossip::headers_view(batch@).len() == batch@.len());
                if batch.len() == 0 {
                    no_message()
                } else {
                    one_message(from, GossipMsg::Headers(batch))
                }
            },
            GossipMsg::Headers(_) => no_message(),
            GossipMsg::GetProof { items } => {
                if items.len() > MAX_PROOF_BATCH {
                    return no_message();
                }
                let entries = prove_entries(&self.chain.state, &items);
                one_message(from, GossipMsg::Proof { items: entries })
            },
            GossipMsg::Proof { items: _ } => no_message(),
        }
    }

    fn on_blocks<F: Fn(&Assessment) -> u32>(
        &mut self,
        engine: &F,
        from: u64,
        batch: Vec<(Block, Commit)>,
    ) -> (r: Outbox)
        requires
            graph::is_function(*engine),
            old(self).wf(),
        ensures
            final(self).wf(),
            (final(self)@, outbox_view(r@)) == on_blocks(
                graph::judge(*engine),
                old(self)@,
                from,
                gossip::batch_view(batch@),
            ),
    {
        let ghost judge = graph::judge(*engine);
        let ghost all = gossip::batch_view(batch@);
        let n: usize = batch.len();
        let mut applied: usize = 0;
        assert(all.skip(0) =~= all);
        proof {
            law_absorbed_stays_certified(judge, self@, all);
        }
        while applied < n
            invariant_except_break
                absorbed(judge, old(self)@, all).1 == applied + absorbed(
                    judge,
                    self@,
                    all.skip(applied as int),
                ).1,
                absorbed(judge, old(self)@, all).0 == absorbed(
                    judge,
                    self@,
                    all.skip(applied as int),
                ).0,
            invariant
                applied <= n,
                n == batch.len(),
                self.wf(),
                graph::is_function(*engine),
                judge == graph::judge(*engine),
                all == gossip::batch_view(batch@),
            ensures
                absorbed(judge, old(self)@, all) == (self@, applied as nat),
            decreases n - applied,
        {
            assert(all.skip(applied as int).skip(1) =~= all.skip(applied + 1));
            let b = batch[applied].0.clone();
            let c = batch[applied].1.clone();
            if !self.apply_certified(engine, b, c) {
                break;
            }
            applied += 1;
        }
        if applied == 0 {
            return no_message();
        }
        let height: u64 = self.height();
        let mut out = self.broadcast(GossipMsg::Status { height }, Some(from));
        if applied == n && n == MAX_BATCH && height < u64::MAX {
            let ghost before = outbox_view(out@);
            let ask = GossipMsg::GetBlocks { from: height + 1 };
            out.push((from, ask));
            assert(outbox_view(out@) =~= before.push((from, ask@)));
        }
        out
    }

    fn on_tx(&mut self, from: u64, t: SubmissionTx) -> (r: Outbox)
        requires
            old(self).wf(),
        ensures
            final(self).wf(),
            (final(self)@, outbox_view(r@)) == if old(self)@.seen_tx.contains(tx::tx_hash(t@)) {
                (old(self)@, Seq::empty())
            } else {
                flooded_tx(old(self)@, t@, old(self)@.peers.remove(from))
            },
    {
        let h = t.hash();
        if !self.seen_tx.insert(h) {
            assert(old(self)@.seen_tx.insert(h) =~= old(self)@.seen_tx);
            return no_message();
        }
        let copy = t.clone();
        if self.mempool.insert(&self.chain, copy).is_err() {
            return no_message();
        }
        self.broadcast(GossipMsg::Tx(t), Some(from))
    }

    fn on_evidence(&mut self, from: u64, ev: SlashEvidence) -> (r: Outbox)
        requires
            old(self).wf(),
        ensures
            final(self).wf(),
            (final(self)@, outbox_view(r@)) == if !consensus::conflicting(ev) || old(
                self,
            )@.seen_evidence.contains(consensus::evidence_hash(ev)) {
                (old(self)@, Seq::empty())
            } else {
                flooded_evidence(old(self)@, ev, old(self)@.peers.remove(from))
            },
    {
        if !ev.is_well_formed() {
            return no_message();
        }
        let h = ev.hash();
        if !self.seen_evidence.insert(h) {
            assert(old(self)@.seen_evidence.insert(h) =~= old(self)@.seen_evidence);
            return no_message();
        }
        self.pending_evidence.push(ev);
        self.broadcast(GossipMsg::Evidence(ev), Some(from))
    }

    fn on_stake_op(&mut self, from: u64, op: StakeOp) -> (r: Outbox)
        requires
            old(self).wf(),
        ensures
            final(self).wf(),
            (final(self)@, outbox_view(r@)) == if old(self)@.seen_stake_op.contains(
                consensus::stake_op_hash(op),
            ) {
                (old(self)@, Seq::empty())
            } else {
                flooded_stake_op(old(self)@, op, old(self)@.peers.remove(from))
            },
    {
        let h = op.hash();
        if !self.seen_stake_op.insert(h) {
            assert(old(self)@.seen_stake_op.insert(h) =~= old(self)@.seen_stake_op);
            return no_message();
        }
        self.pending_stake_ops.push(op);
        self.broadcast(GossipMsg::StakeOp(op), Some(from))
    }
}

/// The listed peers, without the node itself.
pub(crate) fn known_peers(id: u64, peers: &[u64]) -> (r: BTreeSet<u64>)
    ensures
        r@ == others(id, peers@),
{
    let mut known: BTreeSet<u64> = BTreeSet::new();
    let mut i: usize = 0;
    assert(known@ =~= others(id, peers@.take(0)));
    while i < peers.len()
        invariant
            i <= peers.len(),
            known@ == others(id, peers@.take(i as int)),
        decreases peers.len() - i,
    {
        proof {
            lemma_others_step(id, peers@, i as int);
        }
        if peers[i] != id {
            known.insert(peers[i]);
        }
        i += 1;
    }
    assert(peers@.take(i as int) =~= peers@);
    known
}

proof fn lemma_others_step(id: u64, peers: Seq<u64>, i: int)
    requires
        0 <= i < peers.len(),
    ensures
        others(id, peers.take(i + 1)) == if peers[i] == id {
            others(id, peers.take(i))
        } else {
            others(id, peers.take(i)).insert(peers[i])
        },
{
    let a = peers.take(i);
    let b = peers.take(i + 1);
    assert forall|p: u64| b.contains(p) <==> a.contains(p) || p == peers[i] by {
        if a.contains(p) {
            let k = choose|k: int| 0 <= k < a.len() && a[k] == p;
            assert(b[k] == p);
        }
        if b.contains(p) {
            let k = choose|k: int| 0 <= k < b.len() && b[k] == p;
            if k < a.len() {
                assert(a[k] == p);
            }
        }
        assert(b[i] == peers[i]);
    }
    assert(others(id, b) =~= if peers[i] == id {
        others(id, a)
    } else {
        others(id, a).insert(peers[i])
    });
}

} // verus!
