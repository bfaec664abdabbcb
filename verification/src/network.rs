//! An in-process network of full peers.
//!
//! Messages are delivered first in, first out, and what a delivery sends is appended,
//! so a run floods to quiescence in a fixed order.

use std::collections::{BTreeMap, VecDeque};

use vstd::prelude::*;

use crate::bytes::same_bytes;
use crate::consensus;
use crate::consensus::{SlashEvidence, StakeOp};
use crate::gossip::{GossipMsg, MsgView};
use crate::graph;
use crate::graph::{Assessment, Judge};
use crate::node;
use crate::node::{GossipNode, NodeView, Outbox};
use crate::ordered;
use crate::ordered::sorted_keys;
use crate::tx::SubmissionTx;

verus! {

/// The most messages that one run delivers.
pub const MAX_DELIVERIES: usize = 1_000_001;

/// Trusted: the value under a key, to change in place, by `BTreeMap::get_mut`. The
/// other entries stay, and the key ends with whatever the reference was left at.
#[verifier::external_body]
pub(crate) fn entry_mut<V>(m: &mut BTreeMap<u64, V>, k: u64) -> (r: &mut V)
    requires
        old(m)@.contains_key(k),
    ensures
        *r == old(m)@[k],
        final(m)@ == old(m)@.insert(k, *final(r)),
{
    m.get_mut(&k).unwrap()
}

/// A set of nodes and the messages under way between them, each with its
/// destination and its source.
pub struct Network {
    pub nodes: BTreeMap<u64, GossipNode>,
    pub queue: VecDeque<(u64, u64, GossipMsg)>,
}

#[verifier::ext_equal]
pub struct NetView {
    pub nodes: Map<u64, NodeView>,
    pub queue: Seq<(u64, u64, MsgView)>,
}

/// What a table of nodes holds.
pub open spec fn nodes_view(m: Map<u64, GossipNode>) -> Map<u64, NodeView> {
    m.map_values(|n: GossipNode| n@)
}

/// What messages under way hold.
pub open spec fn queue_view(s: Seq<(u64, u64, GossipMsg)>) -> Seq<(u64, u64, MsgView)> {
    s.map_values(|p: (u64, u64, GossipMsg)| (p.0, p.1, p.2@))
}

impl View for Network {
    type V = NetView;

    open spec fn view(&self) -> NetView {
        NetView { nodes: nodes_view(self.nodes@), queue: queue_view(self.queue@) }
    }
}

/// A list of nodes by their ids; of two with one id the later counts.
pub open spec fn gathered(list: Seq<NodeView>) -> Map<u64, NodeView>
    decreases list.len(),
{
    if list.len() == 0 {
        Map::empty()
    } else {
        gathered(list.drop_last()).insert(list.last().id, list.last())
    }
}

/// What the nodes in a list hold.
pub open spec fn list_view(list: Seq<GossipNode>) -> Seq<NodeView> {
    list.map_values(|n: GossipNode| n@)
}

/// The messages of an outbox that have a destination in the network.
pub open spec fn posted(known: Set<u64>, src: u64, out: Seq<(u64, MsgView)>) -> Seq<
    (u64, u64, MsgView),
>
    decreases out.len(),
{
    if out.len() == 0 {
        Seq::empty()
    } else if known.contains(out[0].0) {
        seq![(out[0].0, src, out[0].1)] + posted(known, src, out.skip(1))
    } else {
        posted(known, src, out.skip(1))
    }
}

/// A network after node `src` sent `out`.
pub open spec fn sent(net: NetView, src: u64, out: Seq<(u64, MsgView)>) -> NetView {
    NetView { queue: net.queue + posted(net.nodes.dom(), src, out), ..net }
}

/// A network after node `id` became `n` and sent `out`.
pub open spec fn changed(net: NetView, id: u64, n: NodeView, out: Seq<(u64, MsgView)>) -> NetView {
    sent(NetView { nodes: net.nodes.insert(id, n), ..net }, id, out)
}

/// A network after its first message was delivered.
pub open spec fn stepped(judge: Judge, net: NetView) -> NetView {
    let (dst, src, m) = net.queue[0];
    let (n, out) = node::reacted(judge, net.nodes[dst], src, m);
    changed(NetView { queue: net.queue.skip(1), ..net }, dst, n, out)
}

/// A network after at most `fuel` deliveries, and how many there were.
pub open spec fn ran(judge: Judge, net: NetView, fuel: nat) -> (NetView, nat)
    decreases fuel,
{
    if net.queue.len() == 0 || fuel == 0 {
        (net, 0)
    } else {
        let (end, k) = ran(judge, stepped(judge, net), (fuel - 1) as nat);
        (end, k + 1)
    }
}

/// A network after the given nodes announced their heights.
pub open spec fn announced(net: NetView, ids: Seq<u64>) -> NetView
    decreases ids.len(),
{
    if ids.len() == 0 {
        net
    } else {
        let before = announced(net, ids.drop_last());
        let n = net.nodes[ids.last()];
        sent(
            before,
            ids.last(),
            node::to_each(n.peers, MsgView::Status { height: n.chain.state.height }),
        )
    }
}

/// Whether all nodes have the same head.
pub open spec fn agree(net: NetView) -> bool {
    forall|a: u64, b: u64|
        #![trigger net.nodes[a], net.nodes[b]]
        net.nodes.contains_key(a) && net.nodes.contains_key(b) ==> net.nodes[a].chain.head
            == net.nodes[b].chain.head
}

/// Whether every message under way has its destination in the network.
pub open spec fn addressed(net: NetView) -> bool {
    forall|i: int| 0 <= i < net.queue.len() ==> net.nodes.contains_key((#[trigger] net.queue[i]).0)
}

proof fn lemma_posted(known: Set<u64>, src: u64, out: Seq<(u64, MsgView)>)
    ensures
        forall|i: int|
            0 <= i < posted(known, src, out).len() ==> known.contains(
                (#[trigger] posted(known, src, out)[i]).0,
            ),
    decreases out.len(),
{
    if out.len() > 0 {
        lemma_posted(known, src, out.skip(1));
        let rest = posted(known, src, out.skip(1));
        let all = posted(known, src, out);
        assert forall|i: int| 0 <= i < all.len() implies known.contains((#[trigger] all[i]).0) by {
            if known.contains(out[0].0) {
                if i > 0 {
                    assert(all[i] == rest[i - 1]);
                }
            } else {
                assert(all[i] == rest[i]);
            }
        }
    }
}

/// Whether every node is certified.
pub open spec fn all_certified(net: NetView) -> bool {
    forall|id: u64| #[trigger]
        net.nodes.contains_key(id) ==> node::is_certified_node(net.nodes[id])
}

/// Whatever messages are delivered, every node stays certified and none becomes
/// lower.
pub proof fn law_runs_keep_nodes_certified(judge: Judge, net: NetView, fuel: nat)
    requires
        addressed(net),
        all_certified(net),
    ensures
        ({
            let end = ran(judge, net, fuel).0;
            &&& addressed(end)
            &&& all_certified(end)
            &&& end.nodes.dom() == net.nodes.dom()
            &&& forall|id: u64| #[trigger]
                net.nodes.contains_key(id) ==> end.nodes[id].chain.state.height
                    >= net.nodes[id].chain.state.height
        }),
    decreases fuel,
{
    if net.queue.len() > 0 && fuel > 0 {
        let (dst, src, m) = net.queue[0];
        let (n, out) = node::reacted(judge, net.nodes[dst], src, m);
        let next = stepped(judge, net);
        assert(net.nodes.contains_key(net.queue[0].0));
        node::law_messages_keep_nodes_certified(judge, net.nodes[dst], src, m);
        let popped = NetView { queue: net.queue.skip(1), nodes: net.nodes.insert(dst, n) };
        assert(popped.nodes.dom() =~= net.nodes.dom());
        assert(addressed(popped)) by {
            assert forall|i: int| 0 <= i < popped.queue.len() implies popped.nodes.contains_key(
                (#[trigger] popped.queue[i]).0,
            ) by {
                assert(popped.queue[i] == net.queue[i + 1]);
            }
        }
        lemma_sent_addressed(popped, dst, out);
        law_runs_keep_nodes_certified(judge, next, (fuel - 1) as nat);
        assert forall|id: u64| #[trigger] net.nodes.contains_key(id) implies ran(
            judge,
            net,
            fuel,
        ).0.nodes[id].chain.state.height >= net.nodes[id].chain.state.height by {
            assert(next.nodes.contains_key(id));
        }
    }
}

impl Network {
    /// Whether every node is in order and every message has its destination here.
    pub open spec fn wf(&self) -> bool {
        &&& forall|id: u64| #[trigger] self.nodes@.contains_key(id) ==> self.nodes@[id].wf()
        &&& addressed(self@)
    }

    /// A network of the given nodes, with nothing under way.
    pub fn new(nodes: Vec<GossipNode>) -> (r: Network)
        requires
            forall|i: int| 0 <= i < nodes@.len() ==> (#[trigger] nodes@[i]).wf(),
        ensures
            r.wf(),
            r@ == (NetView {
                nodes: gathered(list_view(nodes@)),
                queue: Seq::<(u64, u64, MsgView)>::empty(),
            }),
    {
        let ghost all = list_view(nodes@);
        let mut rest = nodes;
        let mut table: BTreeMap<u64, GossipNode> = BTreeMap::new();
        let ghost mut k: int = 0;
        assert(nodes_view(table@) =~= gathered(all.take(0)));
        while rest.len() > 0
            invariant
                all == list_view(nodes@),
                0 <= k <= all.len(),
                rest@ == nodes@.skip(k),
                nodes_view(table@) == gathered(all.take(k)),
                forall|i: int| 0 <= i < nodes@.len() ==> (#[trigger] nodes@[i]).wf(),
                forall|id: u64| #[trigger] table@.contains_key(id) ==> table@[id].wf(),
            decreases rest.len(),
        {
            let n = rest.remove(0);
            assert(n == nodes@[k]);
            assert(rest@ =~= nodes@.skip(k + 1));
            assert(all.take(k + 1).drop_last() =~= all.take(k));
            let ghost before = table@;
            let id: u64 = n.id;
            table.insert(id, n);
            assert(nodes_view(table@) =~= nodes_view(before).insert(id, n@));
            proof {
                k = k + 1;
            }
        }
        assert(all.take(k) =~= all);
        let r = Network { nodes: table, queue: VecDeque::new() };
        assert(r@.queue =~= Seq::<(u64, u64, MsgView)>::empty());
        r
    }

    /// The node with the given id.
    pub fn node(&self, id: u64) -> (r: &GossipNode)
        requires
            self@.nodes.contains_key(id),
        ensures
            *r == self.nodes@[id],
            r@ == self@.nodes[id],
    {
        self.nodes.get(&id).unwrap()
    }

    /// The ids of all nodes, in order.
    pub fn ids(&self) -> (r: Vec<u64>)
        ensures
            r@ == ordered::in_order(self@.nodes.dom()),
            ordered::lists(r@, self@.nodes.dom()),
    {
        let r = sorted_keys(&self.nodes);
        assert(self.nodes@.dom() =~= self@.nodes.dom());
        r
    }

    fn enqueue(&mut self, src: u64, out: Outbox)
        ensures
            final(self)@ == sent(old(self)@, src, node::outbox_view(out@)),
            final(self).nodes == old(self).nodes,
            old(self).wf() ==> final(self).wf(),
    {
        let ghost known = self@.nodes.dom();
        let ghost all = node::outbox_view(out@);
        let ghost mail = posted(known, src, all);
        let mut rest = out;
        let ghost mut k: int = 0;
        assert(all.skip(0) =~= all);
        assert(self@.queue + posted(known, src, all.skip(k)) == old(self)@.queue + mail);
        while rest.len() > 0
            invariant
                all == node::outbox_view(out@),
                0 <= k <= all.len(),
                rest@ == out@.skip(k),
                known == old(self)@.nodes.dom(),
                known == self.nodes@.dom(),
                mail == posted(known, src, all),
                self.nodes == old(self).nodes,
                self@.queue + posted(known, src, all.skip(k)) == old(self)@.queue + mail,
            decreases rest.len(),
        {
            let (dst, m) = rest.remove(0);
            proof {
                assert((dst, m) == out@[k]);
                assert(rest@ =~= out@.skip(k + 1));
                assert(all.skip(k).skip(1) =~= all.skip(k + 1));
                assert(all.skip(k)[0] == (dst, m@));
            }
            if self.nodes.contains_key(&dst) {
                let ghost before = self@.queue;
                let ghost mv = m@;
                self.queue.push_back((dst, src, m));
                proof {
                    assert(self@.queue =~= before.push((dst, src, mv)));
                    let tail = posted(known, src, all.skip(k + 1));
                    assert(before + (seq![(dst, src, mv)] + tail) =~= before.push((dst, src, mv))
                        + tail);
                }
            }
            proof {
                k = k + 1;
            }
        }
        proof {
            assert(all.skip(k) =~= Seq::<(u64, MsgView)>::empty());
            assert(self@.queue + Seq::<(u64, u64, MsgView)>::empty() =~= self@.queue);
            assert(self@ =~= sent(old(self)@, src, all));
            if old(self).wf() {
                lemma_sent_addressed(old(self)@, src, all);
            }
        }
    }

    /// Puts messages that a node emitted on the way.
    pub fn inject(&mut self, src: u64, out: Outbox)
        requires
            old(self).wf(),
        ensures
            final(self).wf(),
            final(self)@ == sent(old(self)@, src, node::outbox_view(out@)),
    {
        self.enqueue(src, out);
    }

    /// Submits a submission at a node and floods it.
    pub fn submit(&mut self, id: u64, t: SubmissionTx)
        requires
            old(self).wf(),
            old(self)@.nodes.contains_key(id),
        ensures
            final(self).wf(),
            ({
                let n = old(self)@.nodes[id];
                let (after, out) = node::flooded_tx(n, t@, n.peers);
                final(self)@ == changed(old(self)@, id, after, out)
            }),
    {
        let out = entry_mut(&mut self.nodes, id).submit_local(t);
        proof {
            lemma_one_changed(old(self).nodes@, self.nodes@, id);
            lemma_still_addressed(old(self)@, self@);
        }
        self.enqueue(id, out);
    }

    /// Submits evidence at a node and floods it.
    pub fn submit_evidence(&mut self, id: u64, ev: SlashEvidence)
        requires
            old(self).wf(),
            old(self)@.nodes.contains_key(id),
        ensures
            final(self).wf(),
            ({
                let n = old(self)@.nodes[id];
                let (after, out) = if consensus::conflicting(ev) {
                    node::flooded_evidence(n, ev, n.peers)
                } else {
                    (n, Seq::empty())
                };
                final(self)@ == changed(old(self)@, id, after, out)
            }),
    {
        let out = entry_mut(&mut self.nodes, id).submit_local_evidence(ev);
        proof {
            lemma_one_changed(old(self).nodes@, self.nodes@, id);
            lemma_still_addressed(old(self)@, self@);
        }
        self.enqueue(id, out);
    }

    /// Submits a bonding request at a node and floods it.
    pub fn submit_stake_op(&mut self, id: u64, op: StakeOp)
        requires
            old(self).wf(),
            old(self)@.nodes.contains_key(id),
        ensures
            final(self).wf(),
            ({
                let n = old(self)@.nodes[id];
                let (after, out) = node::flooded_stake_op(n, op, n.peers);
                final(self)@ == changed(old(self)@, id, after, out)
            }),
    {
        let out = entry_mut(&mut self.nodes, id).submit_local_stake_op(op);
        proof {
            lemma_one_changed(old(self).nodes@, self.nodes@, id);
            lemma_still_addressed(old(self)@, self@);
        }
        self.enqueue(id, out);
    }

    /// The node with the given id, to change in place.
    pub fn node_mut(&mut self, id: u64) -> (r: &mut GossipNode)
        requires
            old(self)@.nodes.contains_key(id),
        ensures
            *r == old(self).nodes@[id],
            final(self).nodes@ == old(self).nodes@.insert(id, *final(r)),
            final(self).queue == old(self).queue,
    {
        entry_mut(&mut self.nodes, id)
    }

    /// Every node announces its height, which starts the nodes syncing.
    pub fn announce_all(&mut self)
        requires
            old(self).wf(),
        ensures
            final(self).wf(),
            final(self)@ == announced(
                old(self)@,
                ordered::in_order(old(self)@.nodes.dom()),
            ),
    {
        let ids = self.ids();
        let mut i: usize = 0;
        assert(ids@.take(0) =~= Seq::<u64>::empty());
        while i < ids.len()
            invariant
                i <= ids.len(),
                self.wf(),
                self.nodes == old(self).nodes,
                ordered::lists(ids@, old(self)@.nodes.dom()),
                self@ == announced(old(self)@, ids@.take(i as int)),
            decreases ids.len() - i,
        {
            let id: u64 = ids[i];
            assert(ids@.contains(id));
            assert(ids@.take(i + 1).drop_last() =~= ids@.take(i as int));
            let out = self.node(id).announce();
            self.enqueue(id, out);
            i += 1;
        }
        assert(ids@.take(i as int) =~= ids@);
    }

    /// Delivers messages until none is under way, or the limit is reached. Returns
    /// how many were delivered.
    pub fn run<F: Fn(&Assessment) -> u32>(&mut self, engine: &F) -> (r: usize)
        requires
            graph::is_function(*engine),
            old(self).wf(),
        ensures
            final(self).wf(),
            (final(self)@, r as nat) == ran(
                graph::judge(*engine),
                old(self)@,
                MAX_DELIVERIES as nat,
            ),
    {
        let ghost judge = graph::judge(*engine);
        let mut delivered: usize = 0;
        while delivered < MAX_DELIVERIES
            invariant_except_break
                ran(judge, old(self)@, MAX_DELIVERIES as nat).0 == ran(
                    judge,
                    self@,
                    (MAX_DELIVERIES - delivered) as nat,
                ).0,
                ran(judge, old(self)@, MAX_DELIVERIES as nat).1 == delivered + ran(
                    judge,
                    self@,
                    (MAX_DELIVERIES - delivered) as nat,
                ).1,
            invariant
                delivered <= MAX_DELIVERIES,
                self.wf(),
                graph::is_function(*engine),
                judge == graph::judge(*engine),
            ensures
                ran(judge, old(self)@, MAX_DELIVERIES as nat) == (self@, delivered as nat),
            decreases MAX_DELIVERIES - delivered,
        {
            let ghost start = self@;
            match self.queue.pop_front() {
                None => {
                    assert(start.queue.len() == 0);
                    break;
                },
                Some((dst, src, m)) => {
                    proof {
                        assert(start.queue[0] == (dst, src, m@));
                        assert(start.nodes.contains_key(start.queue[0].0));
                        assert(self@.queue =~= start.queue.skip(1));
                    }
                    let ghost nodes = self.nodes@;
                    let out = entry_mut(&mut self.nodes, dst).on_message(engine, src, m);
                    proof {
                        lemma_one_changed(nodes, self.nodes@, dst);
                        assert(addressed(self@)) by {
                            assert forall|i: int| 0 <= i < self@.queue.len() implies
                                self@.nodes.contains_key((#[trigger] self@.queue[i]).0) by {
                                assert(self@.queue[i] == start.queue[i + 1]);
                            }
                        }
                    }
                    self.enqueue(dst, out);
                    assert(self@ =~= stepped(judge, start));
                },
            }
            delivered += 1;
        }
        delivered
    }

    /// Whether all nodes have the same head.
    pub fn converged(&self) -> (r: bool)
        ensures
            r == agree(self@),
    {
        let ids = self.ids();
        if ids.len() == 0 {
            assert forall|a: u64| !self@.nodes.contains_key(a) by {
                assert(!ids@.contains(a));
            }
            return true;
        }
        assert(ids@.contains(ids@[0]));
        let first = self.node(ids[0]).head();
        let mut i: usize = 1;
        while i < ids.len()
            invariant
                1 <= i <= ids.len(),
                ordered::lists(ids@, self@.nodes.dom()),
                self@.nodes.contains_key(ids@[0]),
                first == self@.nodes[ids@[0]].chain.head,
                forall|j: int|
                    0 <= j < i ==> self@.nodes[#[trigger] ids@[j]].chain.head == first,
            decreases ids.len() - i,
        {
            assert(ids@.contains(ids@[i as int]));
            let h = self.node(ids[i]).head();
            if !same_bytes(&h, &first) {
                assert(self@.nodes[ids@[i as int]].chain.head
                    != self@.nodes[ids@[0]].chain.head);
                return false;
            }
            i += 1;
        }
        assert forall|a: u64| #[trigger]
            self@.nodes.contains_key(a) implies self@.nodes[a].chain.head == first by {
            assert(ids@.contains(a));
            let k = choose|k: int| 0 <= k < ids@.len() && ids@[k] == a;
            assert(self@.nodes[ids@[k]].chain.head == first);
        }
        true
    }
}

proof fn lemma_sent_addressed(net: NetView, src: u64, out: Seq<(u64, MsgView)>)
    requires
        addressed(net),
    ensures
        addressed(sent(net, src, out)),
{
    let known = net.nodes.dom();
    lemma_posted(known, src, out);
    let after = sent(net, src, out);
    assert forall|i: int| 0 <= i < after.queue.len() implies after.nodes.contains_key(
        (#[trigger] after.queue[i]).0,
    ) by {
        if i < net.queue.len() {
            assert(after.queue[i] == net.queue[i]);
        } else {
            assert(after.queue[i] == posted(known, src, out)[i - net.queue.len()]);
        }
    }
}

proof fn lemma_still_addressed(before: NetView, after: NetView)
    requires
        addressed(before),
        after.queue == before.queue,
        after.nodes.dom() == before.nodes.dom(),
    ensures
        addressed(after),
{
    assert forall|i: int| 0 <= i < after.queue.len() implies after.nodes.contains_key(
        (#[trigger] after.queue[i]).0,
    ) by {
        assert(before.nodes.contains_key(before.queue[i].0));
        assert(after.nodes.dom().contains(before.queue[i].0));
    }
}

proof fn lemma_one_changed(before: Map<u64, GossipNode>, after: Map<u64, GossipNode>, id: u64)
    requires
        before.contains_key(id),
        after == before.insert(id, after[id]),
    ensures
        nodes_view(after) == nodes_view(before).insert(id, after[id]@),
        nodes_view(after).dom() == nodes_view(before).dom(),
{
    assert(nodes_view(after) =~= nodes_view(before).insert(id, after[id]@));
    assert(nodes_view(after).dom() =~= nodes_view(before).dom());
}

} // verus!
