//! Why a network of peers converges.
//!
//! The nodes hold shorter or longer parts of one certified chain, and all are peers
//! of each other. Once every node has announced its height, each node that lags has a
//! message under way that will bring it blocks, until none lags any more.

use vstd::prelude::*;

use crate::consensus::CommitView;
use crate::flood;
use crate::gossip::{MsgView, MAX_BATCH};
use crate::graph::Judge;
use crate::network;
use crate::network::NetView;
use crate::node;
use crate::node::NodeView;
use crate::ordered;
use crate::state::GenesisView;
use crate::tx::BlockView;

verus! {

/// A message with its destination and its source.
pub type Letter = (u64, u64, MsgView);

/// How tall a node is.
pub open spec fn tall(net: NetView, p: u64) -> int {
    net.nodes[p].chain.state.height as int
}

/// Whether a node holds the first blocks of a tallest node, with their certificates.
#[verifier::opaque]
pub open spec fn follows(judge: Judge, g: GenesisView, top: NodeView, n: NodeView) -> bool {
    &&& node::replays(judge, g, n)
    &&& node::is_certified_node(n)
    &&& n.blocks.len() <= top.blocks.len()
    &&& n.blocks == top.blocks.take(n.blocks.len() as int)
    &&& n.certs == top.certs.take(n.blocks.len() as int)
}

/// Whether all nodes are peers of each other.
pub open spec fn complete(net: NetView) -> bool {
    &&& net.nodes.dom().finite()
    &&& forall|p: u64| #[trigger]
        net.nodes.contains_key(p) ==> {
            &&& net.nodes[p].peers.finite()
            &&& !net.nodes[p].peers.contains(p)
        }
    &&& forall|p: u64, q: u64|
        #![trigger net.nodes[p].peers.contains(q)]
        net.nodes.contains_key(p) && net.nodes.contains_key(q) && p != q
            ==> net.nodes[p].peers.contains(q)
}

/// How many blocks stand before a batch.
pub open spec fn start_of(batch: Seq<(BlockView, CommitView)>) -> int {
    batch[0].0.height - 1
}

/// Whether a batch is a part of a node's certified chain.
pub open spec fn is_part(top: NodeView, batch: Seq<(BlockView, CommitView)>) -> bool {
    let a = start_of(batch);
    &&& 0 < batch.len() <= MAX_BATCH
    &&& 0 <= a
    &&& a + batch.len() <= top.blocks.len()
    &&& forall|i: int|
        0 <= i < batch.len() ==> #[trigger] batch[i] == (top.blocks[a + i], top.certs[a + i])
}

/// Whether a message says no more than its source can know.
pub open spec fn sound(top: NodeView, net: NetView, e: Letter) -> bool {
    &&& net.nodes.contains_key(e.0)
    &&& net.nodes.contains_key(e.1)
    &&& e.0 != e.1
    &&& match e.2 {
        MsgView::Status { height } => height <= tall(net, e.1),
        MsgView::GetBlocks { .. } => true,
        MsgView::Blocks(batch) => {
            &&& is_part(top, batch)
            &&& start_of(batch) + batch.len() <= tall(net, e.1)
        },
        _ => false,
    }
}

/// Whether a message will make `p` catch up with `q`: news for `p` that `q` is
/// taller, the present height of `p` or its request on the way to `q`, or blocks for
/// `p` that continue its chain.
pub open spec fn helps(net: NetView, p: u64, q: u64, e: Letter) -> bool {
    match e.2 {
        MsgView::Status { height } => {
            ||| e.0 == p && e.1 == q && height > tall(net, p)
            ||| e.0 == q && e.1 == p && height == tall(net, p)
        },
        MsgView::GetBlocks { from } => e.0 == q && e.1 == p && from == tall(net, p) + 1,
        MsgView::Blocks(batch) => e.0 == p && e.1 == q && start_of(batch) == tall(net, p),
        _ => false,
    }
}

/// Whether a message that helps `p` catch up with `q` is under way.
pub open spec fn helped(net: NetView, p: u64, q: u64) -> bool {
    exists|i: int| 0 <= i < net.queue.len() && helps(net, p, q, #[trigger] net.queue[i])
}

/// Whether a message says that its source `s` is taller than `h`, to `d`.
pub open spec fn reports(e: Letter, d: u64, s: u64, h: int) -> bool {
    &&& e.0 == d
    &&& e.1 == s
    &&& e.2 matches MsgView::Status { height } && height > h
}

/// Whether a report of a height above `h`, from `s` to `d`, comes after position `i`.
pub open spec fn report_follows(net: NetView, i: int, d: u64, s: u64, h: int) -> bool {
    exists|j: int| i < j < net.queue.len() && reports(#[trigger] net.queue[j], d, s, h)
}

/// Whether a batch that is not full leaves nothing unsaid: it reaches up to its
/// source, or comes too late anyway, or a report of the source's growth follows it.
pub open spec fn informed(net: NetView, i: int) -> bool {
    let (d, s, m) = net.queue[i];
    match m {
        MsgView::Blocks(batch) => {
            ||| batch.len() == MAX_BATCH
            ||| start_of(batch) + batch.len() >= tall(net, s)
            ||| start_of(batch) < tall(net, d)
            ||| report_follows(net, i, d, s, start_of(batch) + batch.len())
        },
        _ => true,
    }
}

/// Whether a network is on its way to converge.
pub open spec fn syncing(judge: Judge, g: GenesisView, top: NodeView, net: NetView) -> bool {
    &&& complete(net)
    &&& forall|p: u64| #[trigger]
        net.nodes.contains_key(p) ==> follows(judge, g, top, net.nodes[p])
    &&& forall|i: int| 0 <= i < net.queue.len() ==> sound(top, net, #[trigger] net.queue[i])
    &&& forall|i: int| 0 <= i < net.queue.len() ==> #[trigger] informed(net, i)
    &&& forall|p: u64, q: u64|
        net.nodes.contains_key(p) && net.nodes.contains_key(q) && tall(net, p) < tall(net, q)
            ==> #[trigger] helped(net, p, q)
}

// --- a delivery that changes no node ------------------------------------------

/// A network goes on syncing where a delivery changes no node and sends at most one
/// message, which takes the place of the delivered one.
proof fn lemma_quiet(
    judge: Judge,
    g: GenesisView,
    top: NodeView,
    net: NetView,
    next: NetView,
    mail: Seq<Letter>,
)
    requires
        syncing(judge, g, top, net),
        net.queue.len() > 0,
        next.nodes == net.nodes,
        next.queue == net.queue.skip(1) + mail,
        mail.len() <= 1,
        mail.len() == 1 ==> {
            &&& sound(top, net, mail[0])
            &&& mail[0].2 matches MsgView::Blocks(batch) ==> {
                ||| batch.len() == MAX_BATCH
                ||| start_of(batch) + batch.len() >= tall(net, mail[0].1)
            }
        },
        forall|p: u64, q: u64|
            #![trigger helps(net, p, q, net.queue[0])]
            helps(net, p, q, net.queue[0]) && tall(net, p) < tall(net, q) ==> mail.len() == 1
                && helps(net, p, q, mail[0]),
    ensures
        syncing(judge, g, top, next),
{
    let n = net.queue.len() - 1;
    assert forall|i: int| 0 <= i < n implies #[trigger] next.queue[i] == net.queue[i + 1] by {}
    if mail.len() == 1 {
        assert(next.queue[n] == mail[0]);
    }
    assert forall|i: int| 0 <= i < next.queue.len() implies sound(top, next, #[trigger] next.queue[i])
        && informed(next, i) by {
        if i < n {
            assert(next.queue[i] == net.queue[i + 1]);
            assert(sound(top, net, net.queue[i + 1]));
            assert(informed(net, i + 1));
            let (d, s, m) = net.queue[i + 1];
            if let MsgView::Blocks(batch) = m {
                let h = start_of(batch) + batch.len();
                if report_follows(net, i + 1, d, s, h) {
                    let j = choose|j: int|
                        i + 1 < j < net.queue.len() && reports(#[trigger] net.queue[j], d, s, h);
                    assert(next.queue[j - 1] == net.queue[j]);
                    assert(reports(next.queue[j - 1], d, s, h));
                }
            }
        } else {
            assert(next.queue[i] == mail[0]);
        }
    }
    assert forall|p: u64, q: u64|
        next.nodes.contains_key(p) && next.nodes.contains_key(q) && tall(next, p) < tall(
            next,
            q,
        ) implies #[trigger] helped(next, p, q) by {
        assert(helped(net, p, q));
        let i = choose|i: int|
            0 <= i < net.queue.len() && helps(net, p, q, #[trigger] net.queue[i]);
        if i > 0 {
            assert(next.queue[i - 1] == net.queue[i]);
            assert(helps(next, p, q, next.queue[i - 1]));
        } else {
            assert(helps(net, p, q, net.queue[0]));
            assert(helps(next, p, q, next.queue[n]));
        }
    }
}

/// What a node sends of its blocks, from a height that it has, is a part of the chain.
proof fn lemma_batch_is_part(
    judge: Judge,
    g: GenesisView,
    top: NodeView,
    n: NodeView,
    height: u64,
)
    requires
        node::is_certified_node(top),
        follows(judge, g, top, n),
    ensures
        n.blocks.len() == n.chain.state.height,
        ({
            let batch = node::batch_from(n, height);
            if 0 < height <= n.blocks.len() {
                &&& is_part(top, batch)
                &&& start_of(batch) == height - 1
                &&& start_of(batch) + batch.len() <= n.blocks.len()
                &&& batch.len() == MAX_BATCH || start_of(batch) + batch.len() == n.blocks.len()
            } else {
                batch.len() == 0
            }
        }),
{
    reveal(follows);
    let batch = node::batch_from(n, height);
    if 0 < height <= n.blocks.len() {
        let a = height - 1;
        assert forall|i: int| 0 <= i < batch.len() implies #[trigger] batch[i] == (
            top.blocks[a + i],
            top.certs[a + i],
        ) by {
            assert(batch[i] == (n.blocks[a + i], n.certs[a + i]));
        }
        assert(batch[0] == (top.blocks[a + 0], top.certs[a + 0]));
        assert(top.blocks[a].height == a + 1);
    }
}

/// How much a message may still bring about: a report a request, a request blocks.
pub open spec fn weight(m: MsgView) -> nat {
    match m {
        MsgView::Status { .. } => 3,
        MsgView::GetBlocks { .. } => 2,
        _ => 1,
    }
}

/// How much the messages under way may still bring about.
pub open spec fn load(queue: Seq<Letter>) -> nat
    decreases queue.len(),
{
    if queue.len() == 0 {
        0
    } else {
        load(queue.drop_last()) + weight(queue.last().2)
    }
}

proof fn lemma_load_joins(a: Seq<Letter>, b: Seq<Letter>)
    ensures
        load(a + b) == load(a) + load(b),
    decreases b.len(),
{
    if b.len() == 0 {
        assert(a + b =~= a);
    } else {
        lemma_load_joins(a, b.drop_last());
        assert((a + b).drop_last() =~= a + b.drop_last());
    }
}

proof fn lemma_load_first(queue: Seq<Letter>)
    requires
        queue.len() > 0,
    ensures
        load(queue) == weight(queue[0].2) + load(queue.skip(1)),
{
    let first = seq![queue[0]];
    assert(queue =~= first + queue.skip(1));
    lemma_load_joins(first, queue.skip(1));
    assert(first.drop_last() =~= Seq::<Letter>::empty());
    assert(load(first.drop_last()) == 0);
}

proof fn lemma_posted_one(known: Set<u64>, src: u64, dst: u64, m: MsgView)
    requires
        known.contains(dst),
    ensures
        network::posted(known, src, seq![(dst, m)]) == seq![(dst, src, m)],
{
    let out = seq![(dst, m)];
    assert(out.skip(1) =~= Seq::<(u64, MsgView)>::empty());
    assert(network::posted(known, src, out.skip(1)) =~= Seq::<Letter>::empty());
    assert(network::posted(known, src, out) =~= seq![(dst, src, m)]);
}

/// Whether a first message makes its destination grow.
pub open spec fn grows(net: NetView) -> bool {
    net.queue[0].2 matches MsgView::Blocks(batch) && start_of(batch) == tall(net, net.queue[0].0)
}

/// What a node that does not grow sends.
proof fn lemma_quiet_reply(
    judge: Judge,
    g: GenesisView,
    top: NodeView,
    net: NetView,
) -> (mail: Seq<Letter>)
    requires
        node::is_certified_node(top),
        syncing(judge, g, top, net),
        net.queue.len() > 0,
        !grows(net),
    ensures
        ({
            let (d, s, m) = net.queue[0];
            let (after, out) = node::reacted(judge, net.nodes[d], s, m);
            &&& after == net.nodes[d]
            &&& mail == network::posted(net.nodes.dom(), d, out)
        }),
        mail.len() <= 1,
        load(mail) < weight(net.queue[0].2),
        mail.len() == 1 ==> {
            &&& sound(top, net, mail[0])
            &&& mail[0].2 matches MsgView::Blocks(batch) ==> {
                ||| batch.len() == MAX_BATCH
                ||| start_of(batch) + batch.len() >= tall(net, mail[0].1)
            }
        },
        forall|p: u64, q: u64|
            #![trigger helps(net, p, q, net.queue[0])]
            helps(net, p, q, net.queue[0]) && tall(net, p) < tall(net, q) ==> mail.len() == 1
                && helps(net, p, q, mail[0]),
{
    let (d, s, m) = net.queue[0];
    let n = net.nodes[d];
    let known = net.nodes.dom();
    assert(sound(top, net, net.queue[0]));
    assert(n.peers.contains(s));
    assert(n.peers.insert(s) =~= n.peers);
    assert(NodeView { peers: n.peers.insert(s), ..n } == n);
    let (after, out) = node::reacted(judge, n, s, m);
    let mail = network::posted(known, d, out);
    assert(network::posted(known, d, Seq::<(u64, MsgView)>::empty()) =~= Seq::<Letter>::empty());
    match m {
        MsgView::Status { height } => {
            if height > tall(net, d) {
                lemma_posted_one(known, d, s, out[0].1);
            } else if height < tall(net, d) {
                lemma_batch_is_part(judge, g, top, n, (height + 1) as u64);
                lemma_posted_one(known, d, s, out[0].1);
            }
        },
        MsgView::GetBlocks { from } => {
            lemma_batch_is_part(judge, g, top, n, from);
            if node::batch_from(n, from).len() > 0 {
                lemma_posted_one(known, d, s, out[0].1);
            }
        },
        MsgView::Blocks(batch) => {
            reveal(node::accepted);
            assert(batch[0].0.height != n.chain.state.height + 1);
            assert(node::absorbed(judge, n, batch) == (n, 0nat));
        },
        _ => {},
    }
    if mail.len() == 1 {
        assert(load(mail.drop_last()) == 0);
        assert(load(mail) == weight(mail[0].2));
    }
    mail
}

// --- a delivery that makes a node grow ----------------------------------------

proof fn lemma_load_bound(queue: Seq<Letter>)
    ensures
        load(queue) <= 3 * queue.len(),
    decreases queue.len(),
{
    if queue.len() > 0 {
        lemma_load_bound(queue.drop_last());
    }
}

proof fn lemma_posted_push(known: Set<u64>, src: u64, out: Seq<(u64, MsgView)>, e: (u64, MsgView))
    requires
        known.contains(e.0),
    ensures
        network::posted(known, src, out.push(e)) == network::posted(known, src, out).push(
            (e.0, src, e.1),
        ),
    decreases out.len(),
{
    if out.len() == 0 {
        assert(out.push(e) =~= seq![e]);
        lemma_posted_one(known, src, e.0, e.1);
        assert(network::posted(known, src, out).push((e.0, src, e.1)) =~= seq![(e.0, src, e.1)]);
    } else {
        let tail = out.skip(1);
        assert(out.push(e).skip(1) =~= tail.push(e));
        lemma_posted_push(known, src, tail, e);
        if known.contains(out[0].0) {
            assert(seq![(out[0].0, src, out[0].1)] + network::posted(known, src, tail).push(
                (e.0, src, e.1),
            ) =~= (seq![(out[0].0, src, out[0].1)] + network::posted(known, src, tail)).push(
                (e.0, src, e.1),
            ));
        }
    }
}

/// A node that gets blocks which continue its chain applies them all, and goes on
/// following the tallest.
proof fn lemma_grown(
    judge: Judge,
    g: GenesisView,
    top: NodeView,
    n: NodeView,
    batch: Seq<(BlockView, CommitView)>,
)
    requires
        node::is_certified_node(top),
        node::replays(judge, g, top),
        follows(judge, g, top, n),
        is_part(top, batch),
        start_of(batch) == n.chain.state.height,
    ensures
        ({
            let (after, k) = node::absorbed(judge, n, batch);
            &&& k == batch.len()
            &&& follows(judge, g, top, after)
            &&& after.chain.state.height == n.chain.state.height + batch.len()
            &&& after.peers == n.peers
        }),
{
    reveal(follows);
    let h = n.blocks.len() as int;
    assert forall|i: int| 0 <= i < batch.len() implies #[trigger] batch[i] == (
        top.blocks[n.blocks.len() + i],
        top.certs[n.blocks.len() + i],
    ) by {}
    node::lemma_absorbs_all(judge, g, top, n, batch);
    node::lemma_absorbed_replays(judge, g, n, batch);
    node::law_absorbed_stays_certified(judge, n, batch);
    node::lemma_absorbs_certs(judge, n, batch);
    let after = node::absorbed(judge, n, batch).0;
    assert(after.certs =~= top.certs.take(after.blocks.len() as int)) by {
        assert forall|i: int| 0 <= i < after.certs.len() implies after.certs[i] == top.certs[i] by {
            if i >= h {
                assert(batch[i - h] == (top.blocks[h + (i - h)], top.certs[h + (i - h)]));
            }
        }
    }
}

/// What a node that grew to `height` sends: its new height to all but the source of
/// the blocks, and a request to the source if the batch was full.
pub open spec fn is_news(known: Set<u64>, d: u64, s: u64, height: u64, mail: Seq<Letter>) -> bool {
    &&& forall|i: int|
        0 <= i < mail.len() ==> {
            let e = #[trigger] mail[i];
            &&& known.contains(e.0)
            &&& e.1 == d
            &&& e.0 != d
            &&& match e.2 {
                MsgView::Status { height: h } => h == height,
                MsgView::GetBlocks { .. } => true,
                _ => false,
            }
        }
    &&& forall|x: u64| #[trigger]
        known.contains(x) && x != d && x != s ==> mail.contains(
            (x, d, MsgView::Status { height }),
        )
}

proof fn lemma_news(
    judge: Judge,
    g: GenesisView,
    top: NodeView,
    net: NetView,
) -> (mail: Seq<Letter>)
    requires
        node::is_certified_node(top),
        node::replays(judge, g, top),
        syncing(judge, g, top, net),
        net.queue.len() > 0,
        grows(net),
    ensures
        ({
            let (d, s, m) = net.queue[0];
            let (after, out) = node::reacted(judge, net.nodes[d], s, m);
            let known = net.nodes.dom();
            let height = after.chain.state.height;
            &&& m matches MsgView::Blocks(batch)
            &&& follows(judge, g, top, after)
            &&& after.peers == net.nodes[d].peers
            &&& height == start_of(batch) + batch.len()
            &&& mail == network::posted(known, d, out)
            &&& is_news(known, d, s, height, mail)
            &&& batch.len() == MAX_BATCH && height < u64::MAX ==> mail.contains(
                (s, d, MsgView::GetBlocks { from: (height + 1) as u64 }),
            )
            &&& load(mail) <= 3 * known.len() + 2
        }),
{
    let (d, s, m) = net.queue[0];
    let n = net.nodes[d];
    let known = net.nodes.dom();
    assert(sound(top, net, net.queue[0]));
    assert(n.peers.contains(s));
    assert(n.peers.insert(s) =~= n.peers);
    assert(NodeView { peers: n.peers.insert(s), ..n } == n);
    let batch = m->Blocks_0;
    let (after, out) = node::reacted(judge, n, s, m);
    lemma_grown(judge, g, top, n, batch);
    let height = after.chain.state.height;
    let status = MsgView::Status { height };
    let to = after.peers.remove(s);
    let news = node::to_each(to, status);
    flood::lemma_posted_to_each(known, d, to, status);
    let short = network::posted(known, d, news);
    lemma_load_bound(short);
    let mail = network::posted(known, d, out);
    assert forall|x: u64| #[trigger] known.contains(x) && x != d && x != s implies short.contains(
        (x, d, status),
    ) by {
        assert(net.nodes.contains_key(x));
        assert(n.peers.contains(x));
        assert(to.contains(x));
        let i = choose|i: int| 0 <= i < short.len() && (#[trigger] short[i]).0 == x;
        assert(short[i] == (x, d, status));
    }
    if batch.len() == MAX_BATCH && height < u64::MAX {
        let ask = MsgView::GetBlocks { from: (height + 1) as u64 };
        lemma_posted_push(known, d, news, (s, ask));
        assert(mail == short.push((s, d, ask)));
        assert(mail.drop_last() =~= short);
        assert(mail[short.len() as int] == (s, d, ask));
        assert forall|x: u64| #[trigger] known.contains(x) && x != d && x != s implies mail.contains(
            (x, d, status),
        ) by {
            let i = choose|i: int| 0 <= i < short.len() && short[i] == (x, d, status);
            assert(mail[i] == (x, d, status));
        }
        assert forall|i: int| 0 <= i < mail.len() implies ({
            let e = #[trigger] mail[i];
            &&& known.contains(e.0)
            &&& e.1 == d
            &&& e.0 != d
            &&& match e.2 {
                MsgView::Status { height: h } => h == height,
                MsgView::GetBlocks { .. } => true,
                _ => false,
            }
        }) by {
            if i < short.len() {
                assert(mail[i] == short[i]);
            }
        }
    } else {
        assert(mail == short);
    }
    mail
}

/// A network goes on syncing where a delivery makes a node grow.
proof fn lemma_loud(
    judge: Judge,
    g: GenesisView,
    top: NodeView,
    net: NetView,
    next: NetView,
    after: NodeView,
    mail: Seq<Letter>,
)
    requires
        syncing(judge, g, top, net),
        net.queue.len() > 0,
        grows(net),
        ({
            let (d, s, m) = net.queue[0];
            let batch = m->Blocks_0;
            let height = after.chain.state.height;
            &&& next.nodes == net.nodes.insert(d, after)
            &&& next.queue == net.queue.skip(1) + mail
            &&& follows(judge, g, top, after)
            &&& after.peers == net.nodes[d].peers
            &&& height == start_of(batch) + batch.len()
            &&& is_news(net.nodes.dom(), d, s, height, mail)
            &&& batch.len() == MAX_BATCH && height < u64::MAX ==> mail.contains(
                (s, d, MsgView::GetBlocks { from: (height + 1) as u64 }),
            )
        }),
    ensures
        syncing(judge, g, top, next),
{
    let (d, s, m) = net.queue[0];
    let batch = m->Blocks_0;
    let height = after.chain.state.height;
    let status = MsgView::Status { height };
    let known = net.nodes.dom();
    let n = net.queue.len() - 1;
    assert(sound(top, net, net.queue[0]));
    assert(informed(net, 0));
    assert(next.nodes.dom() =~= known);
    assert(complete(next)) by {
        assert forall|p: u64, q: u64|
            #![trigger next.nodes[p].peers.contains(q)]
            next.nodes.contains_key(p) && next.nodes.contains_key(q) && p != q implies next.nodes[p].peers.contains(
            q,
        ) by {
            assert(net.nodes[p].peers.contains(q));
        }
    }
    assert forall|i: int| 0 <= i < n implies #[trigger] next.queue[i] == net.queue[i + 1] by {}
    assert forall|i: int| 0 <= i < mail.len() implies #[trigger] next.queue[n + i] == mail[i] by {}
    assert forall|e: Letter| #[trigger] mail.contains(e) implies exists|i: int|
        n <= i < next.queue.len() && #[trigger] next.queue[i] == e by {
        let i = choose|i: int| 0 <= i < mail.len() && mail[i] == e;
        assert(next.queue[n + i] == e);
    }
    assert forall|i: int| 0 <= i < next.queue.len() implies sound(
        top,
        next,
        #[trigger] next.queue[i],
    ) by {
        if i < n {
            assert(next.queue[i] == net.queue[i + 1]);
            assert(sound(top, net, net.queue[i + 1]));
        } else {
            assert(next.queue[n + (i - n)] == mail[i - n]);
        }
    }
    assert forall|i: int| 0 <= i < next.queue.len() implies #[trigger] informed(next, i) by {
        if i < n {
            assert(next.queue[i] == net.queue[i + 1]);
            assert(sound(top, net, net.queue[i + 1]));
            assert(informed(net, i + 1));
            let (d2, s2, m2) = net.queue[i + 1];
            if let MsgView::Blocks(b) = m2 {
                let end = start_of(b) + b.len();
                if report_follows(net, i + 1, d2, s2, end) {
                    let j = choose|j: int|
                        i + 1 < j < net.queue.len() && reports(#[trigger] net.queue[j], d2, s2, end);
                    assert(next.queue[j - 1] == net.queue[j]);
                    assert(reports(next.queue[j - 1], d2, s2, end));
                } else if s2 == d && d2 != s && end < height {
                    assert(known.contains(d2));
                    assert(mail.contains((d2, d, status)));
                    let j = choose|j: int|
                        n <= j < next.queue.len() && #[trigger] next.queue[j] == (d2, d, status);
                    assert(reports(next.queue[j], d2, s2, end));
                }
            }
        } else {
            assert(next.queue[n + (i - n)] == mail[i - n]);
        }
    }
    assert forall|p: u64, q: u64|
        next.nodes.contains_key(p) && next.nodes.contains_key(q) && tall(next, p) < tall(
            next,
            q,
        ) implies #[trigger] helped(next, p, q) by {
        assert(known.contains(p) && known.contains(q));
        if p == d && q == s {
            if batch.len() == MAX_BATCH {
                let ask = MsgView::GetBlocks { from: (height + 1) as u64 };
                assert(mail.contains((s, d, ask)));
                let j = choose|j: int|
                    n <= j < next.queue.len() && #[trigger] next.queue[j] == (s, d, ask);
                assert(helps(next, p, q, next.queue[j]));
            } else {
                assert(report_follows(net, 0, d, s, height as int));
                let j = choose|j: int|
                    0 < j < net.queue.len() && reports(
                        #[trigger] net.queue[j],
                        d,
                        s,
                        height as int,
                    );
                assert(next.queue[j - 1] == net.queue[j]);
                assert(helps(next, p, q, next.queue[j - 1]));
            }
        } else if p == d {
            assert(mail.contains((q, d, status)));
            let j = choose|j: int|
                n <= j < next.queue.len() && #[trigger] next.queue[j] == (q, d, status);
            assert(helps(next, p, q, next.queue[j]));
        } else if q == d {
            assert(p != s);
            assert(mail.contains((p, d, status)));
            let j = choose|j: int|
                n <= j < next.queue.len() && #[trigger] next.queue[j] == (p, d, status);
            assert(helps(next, p, q, next.queue[j]));
        } else {
            assert(helped(net, p, q));
            let i = choose|i: int|
                0 <= i < net.queue.len() && helps(net, p, q, #[trigger] net.queue[i]);
            assert(i > 0);
            assert(next.queue[i - 1] == net.queue[i]);
            assert(helps(next, p, q, next.queue[i - 1]));
        }
    }
}

// --- how much is left to do ---------------------------------------------------

/// How many blocks a node lacks of a height.
pub open spec fn lack(n: NodeView, height: nat) -> nat {
    if n.chain.state.height < height {
        (height - n.chain.state.height) as nat
    } else {
        0
    }
}

/// How many blocks all nodes together lack of a height.
pub open spec fn missing(nodes: Map<u64, NodeView>, height: nat) -> nat
    decreases nodes.dom().len(),
{
    if !nodes.dom().finite() || nodes.dom().len() == 0 {
        0
    } else {
        let id = nodes.dom().choose();
        lack(nodes[id], height) + missing(nodes.remove(id), height)
    }
}

/// Any node may be counted first.
proof fn lemma_missing_remove(nodes: Map<u64, NodeView>, height: nat, id: u64)
    requires
        nodes.dom().finite(),
        nodes.contains_key(id),
    ensures
        missing(nodes, height) == lack(nodes[id], height) + missing(nodes.remove(id), height),
    decreases nodes.dom().len(),
{
    let c = nodes.dom().choose();
    assert(nodes.dom().contains(id));
    if c != id {
        lemma_missing_remove(nodes.remove(c), height, id);
        lemma_missing_remove(nodes.remove(id), height, c);
        assert(nodes.remove(c).remove(id) =~= nodes.remove(id).remove(c));
    }
}

proof fn lemma_missing_insert(nodes: Map<u64, NodeView>, height: nat, id: u64, n: NodeView)
    requires
        nodes.dom().finite(),
        nodes.contains_key(id),
    ensures
        missing(nodes.insert(id, n), height) + lack(nodes[id], height) == missing(nodes, height)
            + lack(n, height),
{
    let changed = nodes.insert(id, n);
    lemma_missing_remove(nodes, height, id);
    lemma_missing_remove(changed, height, id);
    assert(changed.remove(id) =~= nodes.remove(id));
}

proof fn lemma_missing_bound(nodes: Map<u64, NodeView>, height: nat)
    requires
        nodes.dom().finite(),
    ensures
        missing(nodes, height) <= nodes.dom().len() * height,
    decreases nodes.dom().len(),
{
    if nodes.dom().len() > 0 {
        let id = nodes.dom().choose();
        lemma_missing_bound(nodes.remove(id), height);
        assert(nodes.remove(id).dom() =~= nodes.dom().remove(id));
        let k = nodes.remove(id).dom().len();
        assert((k + 1) * height == k * height + height) by (nonlinear_arith);
    }
}

/// An upper bound on the deliveries that syncing still takes.
pub open spec fn effort(net: NetView, height: nat) -> nat {
    load(net.queue) + missing(net.nodes, height) * (3 * (net.nodes.dom().len() + 1))
}

/// A delivery keeps a network syncing, lowers no node, and leaves less to do.
proof fn lemma_step(judge: Judge, g: GenesisView, top: NodeView, net: NetView)
    requires
        node::is_certified_node(top),
        node::replays(judge, g, top),
        syncing(judge, g, top, net),
        net.queue.len() > 0,
    ensures
        ({
            let next = network::stepped(judge, net);
            &&& syncing(judge, g, top, next)
            &&& next.nodes.dom() == net.nodes.dom()
            &&& forall|p: u64| #[trigger]
                net.nodes.contains_key(p) ==> tall(next, p) >= tall(net, p)
            &&& effort(next, top.blocks.len()) < effort(net, top.blocks.len())
        }),
{
    let (d, s, m) = net.queue[0];
    let known = net.nodes.dom();
    let (after, out) = node::reacted(judge, net.nodes[d], s, m);
    let next = network::stepped(judge, net);
    assert(sound(top, net, net.queue[0]));
    assert(net.nodes.insert(d, after).dom() =~= known);
    assert(next.nodes == net.nodes.insert(d, after));
    lemma_load_first(net.queue);
    if grows(net) {
        let mail = lemma_news(judge, g, top, net);
        assert(next.queue == net.queue.skip(1) + mail);
        lemma_load_joins(net.queue.skip(1), mail);
        lemma_loud(judge, g, top, net, next, after, mail);
        let height = top.blocks.len();
        lemma_missing_insert(net.nodes, height, d, after);
        assert(after.chain.state.height <= height) by {
            reveal(follows);
        }
        let was = missing(net.nodes, height);
        let now = missing(next.nodes, height);
        let size = 3 * (known.len() + 1);
        assert(now < was);
        assert(now * size + size <= was * size) by (nonlinear_arith)
            requires
                now + 1 <= was,
        ;
    } else {
        let mail = lemma_quiet_reply(judge, g, top, net);
        assert(next.nodes =~= net.nodes);
        assert(next.queue == net.queue.skip(1) + mail);
        lemma_load_joins(net.queue.skip(1), mail);
        lemma_quiet(judge, g, top, net, next, mail);
    }
}

// --- laws ---------------------------------------------------------------------

/// Syncing ends: with as many deliveries as are left, nothing is under way any more.
/// No node has become lower.
pub proof fn law_syncing_ends(
    judge: Judge,
    g: GenesisView,
    top: NodeView,
    net: NetView,
    fuel: nat,
)
    requires
        node::is_certified_node(top),
        node::replays(judge, g, top),
        syncing(judge, g, top, net),
        fuel >= effort(net, top.blocks.len()),
    ensures
        ({
            let end = network::ran(judge, net, fuel).0;
            &&& end.queue.len() == 0
            &&& syncing(judge, g, top, end)
            &&& end.nodes.dom() == net.nodes.dom()
            &&& forall|p: u64| #[trigger]
                net.nodes.contains_key(p) ==> tall(end, p) >= tall(net, p)
        }),
    decreases fuel,
{
    if net.queue.len() > 0 {
        lemma_load_first(net.queue);
        lemma_step(judge, g, top, net);
        let next = network::stepped(judge, net);
        law_syncing_ends(judge, g, top, next, (fuel - 1) as nat);
        assert forall|p: u64| #[trigger] net.nodes.contains_key(p) implies tall(
            network::ran(judge, net, fuel).0,
            p,
        ) >= tall(net, p) by {
            assert(next.nodes.contains_key(p));
        }
    }
}

/// What is under way once the listed nodes have announced their heights.
proof fn lemma_announced(net: NetView, ids: Seq<u64>)
    requires
        complete(net),
        net.queue.len() == 0,
        forall|i: int| 0 <= i < ids.len() ==> net.nodes.contains_key(#[trigger] ids[i]),
    ensures
        ({
            let after = network::announced(net, ids);
            &&& after.nodes == net.nodes
            &&& after.queue.len() <= ids.len() * net.nodes.dom().len()
            &&& forall|i: int|
                0 <= i < after.queue.len() ==> {
                    let e = #[trigger] after.queue[i];
                    &&& net.nodes.contains_key(e.0)
                    &&& net.nodes.contains_key(e.1)
                    &&& e.0 != e.1
                    &&& e.2 == MsgView::Status { height: net.nodes[e.1].chain.state.height }
                }
            &&& forall|p: u64, q: u64|
                #![trigger net.nodes.contains_key(p), ids.contains(q)]
                net.nodes.contains_key(p) && ids.contains(q) && p != q ==> after.queue.contains(
                    (p, q, MsgView::Status { height: net.nodes[q].chain.state.height }),
                )
        }),
    decreases ids.len(),
{
    let after = network::announced(net, ids);
    let known = net.nodes.dom();
    if ids.len() > 0 {
        let rest = ids.drop_last();
        let last = ids.last();
        assert(net.nodes.contains_key(ids[ids.len() - 1]));
        assert forall|i: int| 0 <= i < rest.len() implies net.nodes.contains_key(
            #[trigger] rest[i],
        ) by {
            assert(rest[i] == ids[i]);
        }
        lemma_announced(net, rest);
        let before = network::announced(net, rest);
        let n = net.nodes[last];
        let status = MsgView::Status { height: n.chain.state.height };
        flood::lemma_posted_to_each(known, last, n.peers, status);
        let mail = network::posted(known, last, node::to_each(n.peers, status));
        assert(after.queue == before.queue + mail);
        assert((rest.len() + 1) * known.len() == rest.len() * known.len() + known.len())
            by (nonlinear_arith);
        let b = before.queue.len() as int;
        assert forall|i: int| 0 <= i < after.queue.len() implies ({
            let e = #[trigger] after.queue[i];
            &&& net.nodes.contains_key(e.0)
            &&& net.nodes.contains_key(e.1)
            &&& e.0 != e.1
            &&& e.2 == MsgView::Status { height: net.nodes[e.1].chain.state.height }
        }) by {
            if i < b {
                assert(after.queue[i] == before.queue[i]);
            } else {
                assert(after.queue[i] == mail[i - b]);
            }
        }
        assert forall|p: u64, q: u64|
            #![trigger net.nodes.contains_key(p), ids.contains(q)]
            net.nodes.contains_key(p) && ids.contains(q) && p != q implies after.queue.contains(
            (p, q, MsgView::Status { height: net.nodes[q].chain.state.height }),
        ) by {
            let e = (p, q, MsgView::Status { height: net.nodes[q].chain.state.height });
            if q == last {
                assert(n.peers.contains(p));
                assert(known.contains(p));
                let j = choose|j: int| 0 <= j < mail.len() && (#[trigger] mail[j]).0 == p;
                assert(after.queue[b + j] == e);
            } else {
                let k = choose|k: int| 0 <= k < ids.len() && ids[k] == q;
                assert(rest[k] == q);
                assert(rest.contains(q));
                assert(before.queue.contains(e));
                let j = choose|j: int| 0 <= j < before.queue.len() && before.queue[j] == e;
                assert(after.queue[j] == e);
            }
        }
    }
}

/// A network of mutual peers converges: where all nodes hold parts of the chain of a
/// tallest one, every node announces its height, and enough messages are delivered,
/// none is under way any more and every node has the chain of the tallest: the same
/// head and the same state.
pub proof fn law_networks_converge(
    judge: Judge,
    g: GenesisView,
    net: NetView,
    tallest: u64,
    fuel: nat,
)
    requires
        net.queue.len() == 0,
        complete(net),
        net.nodes.contains_key(tallest),
        forall|p: u64| #[trigger]
            net.nodes.contains_key(p) ==> follows(judge, g, net.nodes[tallest], net.nodes[p]),
        fuel >= 3 * (net.nodes.dom().len() + 1) * (net.nodes.dom().len() * (tall(net, tallest) + 1)),
    ensures
        ({
            let start = network::announced(net, ordered::in_order(net.nodes.dom()));
            let end = network::ran(judge, start, fuel).0;
            &&& end.queue.len() == 0
            &&& end.nodes.dom() == net.nodes.dom()
            &&& network::agree(end)
            &&& forall|p: u64| #[trigger]
                end.nodes.contains_key(p) ==> end.nodes[p].chain == net.nodes[tallest].chain
        }),
{
    let top = net.nodes[tallest];
    let known = net.nodes.dom();
    let ids = ordered::in_order(known);
    let start = network::announced(net, ids);
    let height = top.blocks.len();
    let size = known.len();
    ordered::lemma_has_listing(known);
    assert(node::is_certified_node(top) && node::replays(judge, g, top)) by {
        assert(net.nodes.contains_key(tallest));
        reveal(follows);
    }
    assert forall|i: int| 0 <= i < ids.len() implies net.nodes.contains_key(#[trigger] ids[i]) by {
        assert(ids.contains(ids[i]));
    }
    lemma_announced(net, ids);
    lemma_listing_len(ids, known);
    assert forall|p: u64, q: u64|
        start.nodes.contains_key(p) && start.nodes.contains_key(q) && tall(start, p) < tall(
            start,
            q,
        ) implies #[trigger] helped(start, p, q) by {
        assert(ids.contains(q));
        assert(net.nodes.contains_key(p));
        let e = (p, q, MsgView::Status { height: net.nodes[q].chain.state.height });
        assert(start.queue.contains(e));
        let j = choose|j: int| 0 <= j < start.queue.len() && start.queue[j] == e;
        assert(helps(start, p, q, start.queue[j]));
    }
    assert forall|i: int| 0 <= i < start.queue.len() implies sound(
        top,
        start,
        #[trigger] start.queue[i],
    ) && informed(start, i) by {}
    assert(syncing(judge, g, top, start));
    lemma_load_bound(start.queue);
    lemma_missing_bound(net.nodes, height);
    let gap = missing(net.nodes, height);
    assert(3 * (size * size) + gap * (3 * (size + 1)) <= 3 * (size + 1) * (size * (height + 1)))
        by (nonlinear_arith)
        requires
            gap <= size * height,
    {
        assert(gap * (3 * (size + 1)) <= (size * height) * (3 * (size + 1)));
        assert(3 * (size + 1) * (size * (height + 1)) == (size * height) * (3 * (size + 1)) + 3 * (
        size * size) + 3 * size);
    }
    law_syncing_ends(judge, g, top, start, fuel);
    let end = network::ran(judge, start, fuel).0;
    assert forall|p: u64| #[trigger] end.nodes.contains_key(p) implies end.nodes[p].chain
        == top.chain by {
        assert(net.nodes.contains_key(p));
        assert(start.nodes.contains_key(tallest));
        assert(end.nodes.contains_key(tallest));
        assert(follows(judge, g, top, end.nodes[p]));
        assert(follows(judge, g, top, end.nodes[tallest]));
        reveal(follows);
        if tall(end, p) < tall(end, tallest) {
            assert(helped(end, p, tallest));
        }
        assert(end.nodes[p].blocks =~= top.blocks);
        node::law_same_blocks_same_chain(judge, g, end.nodes[p], top);
    }
}

proof fn lemma_listing_len(ids: Seq<u64>, known: Set<u64>)
    requires
        ordered::lists(ids, known),
        known.finite(),
    ensures
        ids.len() == known.len(),
{
    assert(ids.no_duplicates());
    ids.unique_seq_to_set();
    assert(ids.to_set() =~= known);
}

} // verus!
