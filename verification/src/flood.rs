//! Why gossip floods once, ends, and reaches every peer.
//!
//! A rumor is a submission, a piece of evidence or a bonding request on its way
//! through a network of peers that know each other.

use vstd::prelude::*;

use crate::consensus;
use crate::consensus::{SlashEvidence, StakeOp};
use crate::gossip::MsgView;
use crate::graph::Judge;
use crate::mempool;
use crate::network;
use crate::network::NetView;
use crate::node;
use crate::node::NodeView;
use crate::ordered;
use crate::state;
use crate::tx;
use crate::tx::TxView;

verus! {

/// What floods.
pub enum Rumor {
    Tx(TxView),
    Evidence(SlashEvidence),
    StakeOp(StakeOp),
}

/// The message that carries a rumor.
pub open spec fn carrier(r: Rumor) -> MsgView {
    match r {
        Rumor::Tx(t) => MsgView::Tx(t),
        Rumor::Evidence(ev) => MsgView::Evidence(ev),
        Rumor::StakeOp(op) => MsgView::StakeOp(op),
    }
}

/// Whether a rumor has passed through a node.
pub open spec fn heard(n: NodeView, r: Rumor) -> bool {
    match r {
        Rumor::Tx(t) => n.seen_tx.contains(tx::tx_hash(t)),
        Rumor::Evidence(ev) => n.seen_evidence.contains(consensus::evidence_hash(ev)),
        Rumor::StakeOp(op) => n.seen_stake_op.contains(consensus::stake_op_hash(op)),
    }
}

/// Whether a node in its present state takes a rumor in.
pub open spec fn welcomes(n: NodeView, r: Rumor) -> bool {
    match r {
        Rumor::Tx(t) => state::check_tx(n.chain.state, t) is Ok,
        Rumor::Evidence(ev) => consensus::conflicting(ev),
        Rumor::StakeOp(_) => true,
    }
}

/// Whether a node holds a rumor in its pool, or among what it has staged.
pub open spec fn holds(n: NodeView, r: Rumor) -> bool {
    match r {
        Rumor::Tx(t) => mempool::includes(n.pool.txs, tx::tx_hash(t)),
        Rumor::Evidence(ev) => n.pending_evidence.contains(ev),
        Rumor::StakeOp(op) => n.pending_stake_ops.contains(op),
    }
}

/// What a node does with a rumor of its own.
pub open spec fn started(n: NodeView, r: Rumor) -> (NodeView, Seq<(u64, MsgView)>) {
    match r {
        Rumor::Tx(t) => node::flooded_tx(n, t, n.peers),
        Rumor::Evidence(ev) => if consensus::conflicting(ev) {
            node::flooded_evidence(n, ev, n.peers)
        } else {
            (n, Seq::empty())
        },
        Rumor::StakeOp(op) => node::flooded_stake_op(n, op, n.peers),
    }
}

/// Whether a message to a node is under way.
pub open spec fn expects(net: NetView, q: u64) -> bool {
    exists|i: int| 0 <= i < net.queue.len() && (#[trigger] net.queue[i]).0 == q
}

/// Whether peers know each other.
pub open spec fn mutual(net: NetView) -> bool {
    &&& net.nodes.dom().finite()
    &&& forall|p: u64| #[trigger] net.nodes.contains_key(p) ==> net.nodes[p].peers.finite()
    &&& forall|p: u64, q: u64|
        #![trigger net.nodes[p].peers.contains(q)]
        net.nodes.contains_key(p) && net.nodes.contains_key(q) && net.nodes[p].peers.contains(q)
            ==> net.nodes[q].peers.contains(p)
}

/// Whether nothing but a rumor is under way, each message from a node that has heard
/// it to a peer of that node.
pub open spec fn carries_only(net: NetView, r: Rumor) -> bool {
    forall|i: int|
        0 <= i < net.queue.len() ==> {
            let (dst, src, m) = #[trigger] net.queue[i];
            &&& m == carrier(r)
            &&& net.nodes.contains_key(dst)
            &&& net.nodes.contains_key(src)
            &&& heard(net.nodes[src], r)
            &&& net.nodes[dst].peers.contains(src)
        }
}

/// Whether a rumor spreads in order: whoever took it in holds it, and each of their
/// peers has heard it, refuses it, or has it under way.
pub open spec fn spreading(net: NetView, r: Rumor) -> bool {
    &&& mutual(net)
    &&& carries_only(net, r)
    &&& forall|p: u64| #[trigger]
        net.nodes.contains_key(p) && heard(net.nodes[p], r) && welcomes(net.nodes[p], r) ==> holds(
            net.nodes[p],
            r,
        )
    &&& forall|p: u64, q: u64|
        #![trigger net.nodes[p].peers.contains(q)]
        {
            &&& net.nodes.contains_key(p)
            &&& net.nodes.contains_key(q)
            &&& heard(net.nodes[p], r)
            &&& welcomes(net.nodes[p], r)
            &&& net.nodes[p].peers.contains(q)
        } ==> {
            ||| heard(net.nodes[q], r)
            ||| !welcomes(net.nodes[q], r)
            ||| expects(net, q)
        }
}

/// The nodes that a rumor has yet to reach.
pub open spec fn waiting(net: NetView, r: Rumor) -> Set<u64> {
    net.nodes.dom().filter(|p: u64| !heard(net.nodes[p], r) && welcomes(net.nodes[p], r))
}

/// An upper bound on the deliveries that a rumor still takes.
pub open spec fn deliveries_left(net: NetView, r: Rumor) -> nat {
    net.queue.len() + waiting(net, r).len() * net.nodes.dom().len()
}

// --- one delivery -------------------------------------------------------------

/// A node that has heard a rumor, or refuses it, sends nothing; one that takes it in
/// holds it and passes it on to all peers but the sender.
proof fn lemma_reaction(judge: Judge, n: NodeView, from: u64, r: Rumor)
    ensures
        ({
            let (after, out) = node::reacted(judge, n, from, carrier(r));
            &&& after.peers == n.peers.insert(from)
            &&& after.chain == n.chain
            &&& welcomes(after, r) == welcomes(n, r)
            &&& heard(n, r) ==> heard(after, r)
            &&& holds(n, r) ==> holds(after, r)
            &&& if heard(n, r) || !welcomes(n, r) {
                out == Seq::<(u64, MsgView)>::empty()
            } else {
                &&& heard(after, r)
                &&& holds(after, r)
                &&& out == node::to_each(n.peers.insert(from).remove(from), carrier(r))
            }
        }),
{
    match r {
        Rumor::Tx(t) => {
            if !heard(n, r) {
                mempool::law_added_is_included(n.pool.txs, t, tx::tx_hash(t));
            }
        },
        Rumor::Evidence(ev) => {
            let staged = n.pending_evidence.push(ev);
            assert(staged[staged.len() - 1] == ev);
        },
        Rumor::StakeOp(op) => {
            let staged = n.pending_stake_ops.push(op);
            assert(staged[staged.len() - 1] == op);
            assert forall|x: StakeOp| n.pending_stake_ops.contains(x) implies staged.contains(x) by {
                let i = choose|i: int|
                    0 <= i < n.pending_stake_ops.len() && n.pending_stake_ops[i] == x;
                assert(staged[i] == x);
            }
        },
    }
}

/// What is posted of a message to a list of peers.
proof fn lemma_posted_to_list(known: Set<u64>, src: u64, peers: Seq<u64>, m: MsgView)
    requires
        known.finite(),
        ordered::increasing(peers),
    ensures
        ({
            let mail = network::posted(known, src, peers.map_values(|p: u64| (p, m)));
            &&& mail.len() <= known.len()
            &&& forall|i: int|
                0 <= i < mail.len() ==> {
                    &&& (#[trigger] mail[i]) == (mail[i].0, src, m)
                    &&& known.contains(mail[i].0)
                    &&& peers.contains(mail[i].0)
                }
            &&& forall|q: u64|
                known.contains(q) && #[trigger] peers.contains(q) ==> exists|i: int|
                    0 <= i < mail.len() && (#[trigger] mail[i]).0 == q
        }),
    decreases peers.len(),
{
    let out = peers.map_values(|p: u64| (p, m));
    let mail = network::posted(known, src, out);
    if peers.len() > 0 {
        let first = peers[0];
        let tail = peers.skip(1);
        assert(out.skip(1) =~= tail.map_values(|p: u64| (p, m)));
        assert(out[0] == (first, m));
        assert forall|q: u64| #[trigger] tail.contains(q) implies peers.contains(q) && q != first by {
            let i = choose|i: int| 0 <= i < tail.len() && tail[i] == q;
            assert(peers[i + 1] == q);
        }
        assert forall|q: u64| #[trigger] peers.contains(q) implies q == first || tail.contains(q) by {
            let i = choose|i: int| 0 <= i < peers.len() && peers[i] == q;
            if i > 0 {
                assert(tail[i - 1] == q);
            }
        }
        let rest = known.remove(first);
        lemma_posted_to_list(rest, src, tail, m);
        lemma_posted_without(known, src, tail, m, first);
        let less = network::posted(rest, src, tail.map_values(|p: u64| (p, m)));
        if known.contains(first) {
            assert(mail == seq![(first, src, m)] + less);
            assert forall|q: u64| known.contains(q) && #[trigger] peers.contains(q) implies exists|
                i: int,
            | 0 <= i < mail.len() && (#[trigger] mail[i]).0 == q by {
                if q == first {
                    assert(mail[0].0 == q);
                } else {
                    assert(rest.contains(q));
                    let i = choose|i: int| 0 <= i < less.len() && (#[trigger] less[i]).0 == q;
                    assert(mail[i + 1] == less[i]);
                }
            }
            assert forall|i: int| 0 <= i < mail.len() implies {
                &&& (#[trigger] mail[i]) == (mail[i].0, src, m)
                &&& known.contains(mail[i].0)
                &&& peers.contains(mail[i].0)
            } by {
                if i > 0 {
                    assert(mail[i] == less[i - 1]);
                }
            }
        } else {
            assert(rest =~= known);
        }
    }
}

/// Whether an id that is not listed is known makes no difference.
proof fn lemma_posted_without(known: Set<u64>, src: u64, peers: Seq<u64>, m: MsgView, id: u64)
    requires
        !peers.contains(id),
    ensures
        network::posted(known, src, peers.map_values(|p: u64| (p, m))) == network::posted(
            known.remove(id),
            src,
            peers.map_values(|p: u64| (p, m)),
        ),
    decreases peers.len(),
{
    let out = peers.map_values(|p: u64| (p, m));
    if peers.len() > 0 {
        let tail = peers.skip(1);
        assert(out.skip(1) =~= tail.map_values(|p: u64| (p, m)));
        assert(peers.contains(peers[0]));
        if tail.contains(id) {
            let i = choose|i: int| 0 <= i < tail.len() && tail[i] == id;
            assert(peers[i + 1] == id);
        }
        lemma_posted_without(known, src, tail, m, id);
    }
}

/// What is posted of a message to a set of peers: one to each that is known.
pub proof fn lemma_posted_to_each(known: Set<u64>, src: u64, peers: Set<u64>, m: MsgView)
    requires
        known.finite(),
        peers.finite(),
    ensures
        ({
            let mail = network::posted(known, src, node::to_each(peers, m));
            &&& mail.len() <= known.len()
            &&& forall|i: int|
                0 <= i < mail.len() ==> {
                    &&& (#[trigger] mail[i]) == (mail[i].0, src, m)
                    &&& known.contains(mail[i].0)
                    &&& peers.contains(mail[i].0)
                }
            &&& forall|q: u64|
                known.contains(q) && #[trigger] peers.contains(q) ==> exists|i: int|
                    0 <= i < mail.len() && (#[trigger] mail[i]).0 == q
        }),
{
    ordered::lemma_has_listing(peers);
    let list = ordered::in_order(peers);
    lemma_posted_to_list(known, src, list, m);
    let mail = network::posted(known, src, node::to_each(peers, m));
    assert forall|q: u64| known.contains(q) && #[trigger] peers.contains(q) implies exists|i: int|
        0 <= i < mail.len() && (#[trigger] mail[i]).0 == q by {
        assert(list.contains(q));
    }
}

/// Whether a message to `q` outlasts the first delivery, or was the one delivered.
proof fn lemma_still_expected(net: NetView, next: NetView, q: u64)
    requires
        net.queue.len() > 0,
        expects(net, q),
        next.queue.len() >= net.queue.len() - 1,
        forall|i: int|
            0 <= i < net.queue.len() - 1 ==> #[trigger] next.queue[i] == net.queue[i + 1],
    ensures
        q == net.queue[0].0 || expects(next, q),
{
    let i = choose|i: int| 0 <= i < net.queue.len() && (#[trigger] net.queue[i]).0 == q;
    if i > 0 {
        assert(next.queue[i - 1] == net.queue[i]);
    }
}

/// A delivery keeps a rumor spreading in order, changes no chain, and leaves fewer
/// deliveries to come.
proof fn lemma_delivery(judge: Judge, net: NetView, r: Rumor)
    requires
        spreading(net, r),
        net.queue.len() > 0,
    ensures
        ({
            let next = network::stepped(judge, net);
            &&& spreading(next, r)
            &&& next.nodes.dom() == net.nodes.dom()
            &&& forall|p: u64| #[trigger]
                net.nodes.contains_key(p) ==> {
                    &&& next.nodes[p].peers == net.nodes[p].peers
                    &&& next.nodes[p].chain == net.nodes[p].chain
                    &&& heard(net.nodes[p], r) ==> heard(next.nodes[p], r)
                }
            &&& deliveries_left(next, r) < deliveries_left(net, r)
        }),
{
    let (d, s, m) = net.queue[0];
    let popped = NetView { queue: net.queue.skip(1), ..net };
    let before = net.nodes[d];
    let (after, out) = node::reacted(judge, before, s, m);
    let next = network::stepped(judge, net);
    let known = net.nodes.dom();
    let takes = !heard(before, r) && welcomes(before, r);
    let to = before.peers.insert(s).remove(s);
    lemma_reaction(judge, before, s, r);
    assert(before.peers.insert(s) =~= before.peers);
    assert(next.nodes == net.nodes.insert(d, after));
    assert(next.nodes.dom() =~= known);
    let mail = network::posted(known, d, out);
    if takes {
        lemma_posted_to_each(known, d, to, m);
    } else {
        assert(mail =~= Seq::empty());
    }
    assert(popped.nodes.insert(d, after).dom() =~= known);
    assert(next.queue == popped.queue + mail);
    assert forall|i: int| 0 <= i < net.queue.len() - 1 implies #[trigger] next.queue[i]
        == net.queue[i + 1] by {}
    assert forall|i: int| 0 <= i < next.queue.len() implies ({
        let (dst, src, msg) = #[trigger] next.queue[i];
        &&& msg == carrier(r)
        &&& next.nodes.contains_key(dst)
        &&& next.nodes.contains_key(src)
        &&& heard(next.nodes[src], r)
        &&& next.nodes[dst].peers.contains(src)
    }) by {
        if i < net.queue.len() - 1 {
            assert(next.queue[i] == net.queue[i + 1]);
        } else {
            let j = i - (net.queue.len() - 1);
            assert(next.queue[i] == mail[j]);
            assert(before.peers.contains(mail[j].0));
            assert(net.nodes[d].peers.contains(mail[j].0));
            assert(net.nodes[mail[j].0].peers.contains(d));
        }
    }
    assert forall|p: u64, q: u64|
        #![trigger next.nodes[p].peers.contains(q)]
        {
            &&& next.nodes.contains_key(p)
            &&& next.nodes.contains_key(q)
            &&& heard(next.nodes[p], r)
            &&& welcomes(next.nodes[p], r)
            &&& next.nodes[p].peers.contains(q)
        } implies {
        ||| heard(next.nodes[q], r)
        ||| !welcomes(next.nodes[q], r)
        ||| expects(next, q)
    } by {
        assert(net.nodes[p].peers.contains(q));
        if p == d && takes {
            if q != s {
                assert(to.contains(q));
                let j = choose|j: int| 0 <= j < mail.len() && (#[trigger] mail[j]).0 == q;
                assert(next.queue[net.queue.len() - 1 + j] == mail[j]);
            }
        } else if expects(net, q) {
            lemma_still_expected(net, next, q);
        }
    }
    assert forall|p: u64, q: u64|
        #![trigger next.nodes[p].peers.contains(q)]
        next.nodes.contains_key(p) && next.nodes.contains_key(q) && next.nodes[p].peers.contains(
            q,
        ) implies next.nodes[q].peers.contains(p) by {
        assert(net.nodes[p].peers.contains(q));
        assert(net.nodes[q].peers.contains(p));
    }
    let w = waiting(net, r);
    let left = waiting(next, r);
    let size = known.len();
    known.lemma_len_filter(|p: u64| !heard(net.nodes[p], r) && welcomes(net.nodes[p], r));
    if takes {
        assert(w.contains(d));
        assert(left =~= w.remove(d));
        assert(w.len() * size == left.len() * size + size) by (nonlinear_arith)
            requires
                w.len() == left.len() + 1,
        ;
    } else {
        assert(left =~= w);
    }
}

// --- laws ---------------------------------------------------------------------

/// A flood ends: with as many deliveries as are left, nothing is under way any more,
/// and the rumor is still in order. No chain has changed, and who heard the rumor
/// has heard it.
pub proof fn law_floods_end(judge: Judge, net: NetView, r: Rumor, fuel: nat)
    requires
        spreading(net, r),
        fuel >= deliveries_left(net, r),
    ensures
        ({
            let end = network::ran(judge, net, fuel).0;
            &&& end.queue.len() == 0
            &&& spreading(end, r)
            &&& end.nodes.dom() == net.nodes.dom()
            &&& forall|p: u64| #[trigger]
                net.nodes.contains_key(p) ==> {
                    &&& end.nodes[p].peers == net.nodes[p].peers
                    &&& end.nodes[p].chain == net.nodes[p].chain
                    &&& heard(net.nodes[p], r) ==> heard(end.nodes[p], r)
                }
        }),
    decreases fuel,
{
    if net.queue.len() > 0 {
        lemma_delivery(judge, net, r);
        let next = network::stepped(judge, net);
        law_floods_end(judge, next, r, (fuel - 1) as nat);
        assert forall|p: u64| #[trigger] net.nodes.contains_key(p) implies {
            let end = network::ran(judge, net, fuel).0;
            &&& end.nodes[p].peers == net.nodes[p].peers
            &&& end.nodes[p].chain == net.nodes[p].chain
            &&& heard(net.nodes[p], r) ==> heard(end.nodes[p], r)
        } by {
            assert(next.nodes.contains_key(p));
        }
    }
}

/// Where a flood has ended, every peer of a node that took the rumor in holds it too,
/// if it takes it in at all.
pub proof fn law_a_rumor_reaches_peers(net: NetView, r: Rumor, p: u64, q: u64)
    requires
        spreading(net, r),
        net.queue.len() == 0,
        net.nodes.contains_key(p),
        net.nodes.contains_key(q),
        heard(net.nodes[p], r),
        welcomes(net.nodes[p], r),
        net.nodes[p].peers.contains(q),
        welcomes(net.nodes[q], r),
    ensures
        heard(net.nodes[q], r),
        holds(net.nodes[q], r),
{
    assert(net.nodes.contains_key(q));
}

/// Whether a quiet network has not heard of a rumor, all its nodes are peers of each
/// other, and each would take the rumor in.
pub open spec fn ready(net: NetView, r: Rumor) -> bool {
    &&& net.queue.len() == 0
    &&& mutual(net)
    &&& forall|p: u64| #[trigger]
        net.nodes.contains_key(p) ==> !heard(net.nodes[p], r) && welcomes(net.nodes[p], r)
    &&& forall|p: u64, q: u64|
        #![trigger net.nodes[p].peers.contains(q)]
        net.nodes.contains_key(p) && net.nodes.contains_key(q) && p != q
            ==> net.nodes[p].peers.contains(q)
}

/// A network after a node started a rumor.
pub open spec fn seeded(net: NetView, id: u64, r: Rumor) -> NetView {
    let (after, out) = started(net.nodes[id], r);
    network::changed(net, id, after, out)
}

/// A rumor that one node starts in a network of mutual peers reaches every node: once
/// enough messages are delivered none is under way, and every node holds it.
pub proof fn law_a_rumor_reaches_every_node(
    judge: Judge,
    net: NetView,
    id: u64,
    r: Rumor,
    fuel: nat,
)
    requires
        ready(net, r),
        net.nodes.contains_key(id),
        fuel >= (net.nodes.dom().len() + 1) * net.nodes.dom().len(),
    ensures
        ({
            let end = network::ran(judge, seeded(net, id, r), fuel).0;
            &&& end.queue.len() == 0
            &&& end.nodes.dom() == net.nodes.dom()
            &&& forall|p: u64| #[trigger]
                end.nodes.contains_key(p) ==> {
                    &&& holds(end.nodes[p], r)
                    &&& end.nodes[p].chain == net.nodes[p].chain
                }
        }),
{
    let known = net.nodes.dom();
    let first = net.nodes[id];
    let (after, out) = started(first, r);
    let start = seeded(net, id, r);
    lemma_started(first, r);
    assert(net.nodes.insert(id, after).dom() =~= known);
    assert(start.nodes == net.nodes.insert(id, after));
    lemma_posted_to_each(known, id, first.peers, carrier(r));
    let mail = network::posted(known, id, out);
    assert(start.queue =~= mail);
    assert forall|p: u64, q: u64|
        #![trigger start.nodes[p].peers.contains(q)]
        start.nodes.contains_key(p) && start.nodes.contains_key(q)
            && start.nodes[p].peers.contains(q) implies start.nodes[q].peers.contains(p) by {
        assert(net.nodes[p].peers.contains(q));
        assert(net.nodes[q].peers.contains(p));
    }
    assert forall|i: int| 0 <= i < start.queue.len() implies ({
        let (dst, src, msg) = #[trigger] start.queue[i];
        &&& msg == carrier(r)
        &&& start.nodes.contains_key(dst)
        &&& start.nodes.contains_key(src)
        &&& heard(start.nodes[src], r)
        &&& start.nodes[dst].peers.contains(src)
    }) by {
        assert(start.queue[i] == mail[i]);
        assert(net.nodes[id].peers.contains(mail[i].0));
        assert(net.nodes[mail[i].0].peers.contains(id));
    }
    assert forall|p: u64, q: u64|
        #![trigger start.nodes[p].peers.contains(q)]
        {
            &&& start.nodes.contains_key(p)
            &&& start.nodes.contains_key(q)
            &&& heard(start.nodes[p], r)
            &&& welcomes(start.nodes[p], r)
            &&& start.nodes[p].peers.contains(q)
        } implies {
        ||| heard(start.nodes[q], r)
        ||| !welcomes(start.nodes[q], r)
        ||| expects(start, q)
    } by {
        assert(net.nodes.contains_key(p));
        assert(p == id);
        assert(first.peers.contains(q));
        let j = choose|j: int| 0 <= j < mail.len() && (#[trigger] mail[j]).0 == q;
        assert(start.queue[j] == mail[j]);
    }
    assert(spreading(start, r));
    known.lemma_len_filter(|p: u64| !heard(start.nodes[p], r) && welcomes(start.nodes[p], r));
    let w = waiting(start, r);
    let size = known.len();
    assert(w.len() * size <= size * size) by (nonlinear_arith)
        requires
            w.len() <= size,
    ;
    assert((size + 1) * size == size * size + size) by (nonlinear_arith);
    law_floods_end(judge, start, r, fuel);
    let end = network::ran(judge, start, fuel).0;
    assert forall|p: u64| #[trigger] end.nodes.contains_key(p) implies {
        &&& holds(end.nodes[p], r)
        &&& end.nodes[p].chain == net.nodes[p].chain
    } by {
        assert(start.nodes.contains_key(p));
        assert(start.nodes.contains_key(id));
        assert(net.nodes.contains_key(p));
        lemma_welcome_by_chain(net.nodes[p], end.nodes[p], r);
        lemma_welcome_by_chain(net.nodes[id], end.nodes[id], r);
        if p != id {
            assert(net.nodes[id].peers.contains(p));
            law_a_rumor_reaches_peers(end, r, id, p);
        }
    }
}

/// Whether a node takes a rumor in depends on its chain alone.
proof fn lemma_welcome_by_chain(a: NodeView, b: NodeView, r: Rumor)
    requires
        a.chain == b.chain,
    ensures
        welcomes(a, r) == welcomes(b, r),
{
}

/// A node that takes in a rumor of its own has heard it, holds it, and sends it to
/// all its peers.
proof fn lemma_started(n: NodeView, r: Rumor)
    requires
        welcomes(n, r),
    ensures
        ({
            let (after, out) = started(n, r);
            &&& after.peers == n.peers
            &&& after.chain == n.chain
            &&& heard(after, r)
            &&& holds(after, r)
            &&& out == node::to_each(n.peers, carrier(r))
        }),
{
    match r {
        Rumor::Tx(t) => {
            mempool::law_added_is_included(n.pool.txs, t, tx::tx_hash(t));
        },
        Rumor::Evidence(ev) => {
            let staged = n.pending_evidence.push(ev);
            assert(staged[staged.len() - 1] == ev);
        },
        Rumor::StakeOp(op) => {
            let staged = n.pending_stake_ops.push(op);
            assert(staged[staged.len() - 1] == op);
        },
    }
}

} // verus!
