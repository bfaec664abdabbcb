//! An in-process network of full and light peers.
//!
//! Headers do not carry the validators that certify the next height. Where a chosen
//! full peer answers a chosen light peer with headers, the network hands each of them
//! over together with the validator set that its caller knows for that height.

use std::collections::{BTreeMap, VecDeque};

use vstd::prelude::*;

use crate::chain;
use crate::codec;
use crate::gossip;
use crate::gossip::{GossipMsg, MsgView, MAX_BATCH};
use crate::graph;
use crate::graph::{Assessment, Judge};
use crate::light::{CertifiedHeader, CertifiedView};
use crate::merkle;
use crate::network;
use crate::network::{entry_mut, MAX_DELIVERIES};
use crate::node;
use crate::node::{GossipNode, NodeView, Outbox};
use crate::ordered;
use crate::ordered::sorted_keys;
use crate::parse;
use crate::spv;
use crate::spv::{LightGossipNode, LightView};
use crate::tx;
use crate::tx::BlockView;
use crate::validator::{Validator, ValidatorSet};

verus! {

/// Full peers, light peers, and the messages under way between them.
pub struct LightNetwork {
    pub full: BTreeMap<u64, GossipNode>,
    pub light: BTreeMap<u64, LightGossipNode>,
    pub queue: VecDeque<(u64, u64, GossipMsg)>,
}

#[verifier::ext_equal]
pub struct LightNetView {
    pub full: Map<u64, NodeView>,
    pub light: Map<u64, LightView>,
    pub queue: Seq<(u64, u64, MsgView)>,
}

/// What a table of light peers holds.
pub open spec fn lights_view(m: Map<u64, LightGossipNode>) -> Map<u64, LightView> {
    m.map_values(|n: LightGossipNode| n@)
}

impl View for LightNetwork {
    type V = LightNetView;

    open spec fn view(&self) -> LightNetView {
        LightNetView {
            full: network::nodes_view(self.full@),
            light: lights_view(self.light@),
            queue: network::queue_view(self.queue@),
        }
    }
}

/// A list of light peers by their ids; of two with one id the later counts.
pub open spec fn gathered_lights(list: Seq<LightView>) -> Map<u64, LightView>
    decreases list.len(),
{
    if list.len() == 0 {
        Map::empty()
    } else {
        gathered_lights(list.drop_last()).insert(list.last().id, list.last())
    }
}

/// What the light peers in a list hold.
pub open spec fn light_list_view(list: Seq<LightGossipNode>) -> Seq<LightView> {
    list.map_values(|n: LightGossipNode| n@)
}

/// All who can receive a message.
pub open spec fn members(net: LightNetView) -> Set<u64> {
    net.full.dom().union(net.light.dom())
}

/// A network after node `src` sent `out`.
pub open spec fn sent(net: LightNetView, src: u64, out: Seq<(u64, MsgView)>) -> LightNetView {
    LightNetView { queue: net.queue + network::posted(members(net), src, out), ..net }
}

/// A network after a message reached its destination; one without a destination is
/// dropped.
pub open spec fn delivered(
    judge: Judge,
    net: LightNetView,
    dst: u64,
    src: u64,
    m: MsgView,
) -> LightNetView {
    if net.full.contains_key(dst) {
        let (n, out) = node::reacted(judge, net.full[dst], src, m);
        sent(LightNetView { full: net.full.insert(dst, n), ..net }, dst, out)
    } else if net.light.contains_key(dst) {
        let (n, out) = spv::light_reacted(net.light[dst], src, m);
        sent(LightNetView { light: net.light.insert(dst, n), ..net }, dst, out)
    } else {
        net
    }
}

/// Validator sets by the height whose header they are handed over with.
pub type Sets = spec_fn(u64) -> Option<Seq<Validator>>;

/// Whether `source` may answer `height` with `set`.
pub open spec fn offers<G: Fn(u64) -> Option<ValidatorSet>>(
    source: G,
    height: u64,
    set: Option<Seq<Validator>>,
) -> bool {
    exists|x: Option<ValidatorSet>| #[trigger]
        call_ensures(source, (height,), x) && parse::viewed_option(x) == set
}

/// Whether `source` can be asked for any height and gives one height one answer.
pub open spec fn is_source<G: Fn(u64) -> Option<ValidatorSet>>(source: G) -> bool {
    &&& forall|height: u64| #[trigger] call_requires(source, (height,))
    &&& forall|height: u64, x: Option<Seq<Validator>>, y: Option<Seq<Validator>>|
        #[trigger] offers(source, height, x) && #[trigger] offers(source, height, y) ==> x == y
}

/// The sets that `source` gives.
pub open spec fn sets_of<G: Fn(u64) -> Option<ValidatorSet>>(source: G) -> Sets {
    |height: u64| choose|set: Option<Seq<Validator>>| offers(source, height, set)
}

/// A light peer after it was handed headers with the sets known for their heights.
pub open spec fn bridged(sets: Sets, n: LightView, batch: Seq<CertifiedView>) -> LightView
    decreases batch.len(),
{
    if batch.len() == 0 {
        n
    } else {
        let next = match sets(batch[0].header.height) {
            Some(set) => spv::given_header(n, batch[0], set).0,
            None => n,
        };
        bridged(sets, next, batch.skip(1))
    }
}

/// A network after its first message was delivered. Headers from the chosen full
/// peer to the chosen light peer are handed over with their validator sets.
pub open spec fn stepped(
    judge: Judge,
    sets: Sets,
    full_id: u64,
    light_id: u64,
    net: LightNetView,
) -> LightNetView {
    let (dst, src, m) = net.queue[0];
    let rest = LightNetView { queue: net.queue.skip(1), ..net };
    if dst == light_id && src == full_id && m is Headers {
        if net.light.contains_key(light_id) {
            LightNetView {
                light: net.light.insert(
                    light_id,
                    bridged(sets, net.light[light_id], m->Headers_0),
                ),
                ..rest
            }
        } else {
            rest
        }
    } else {
        delivered(judge, rest, dst, src, m)
    }
}

/// A network after at most `fuel` deliveries, and how many there were.
pub open spec fn ran(
    judge: Judge,
    sets: Sets,
    full_id: u64,
    light_id: u64,
    net: LightNetView,
    fuel: nat,
) -> (LightNetView, nat)
    decreases fuel,
{
    if net.queue.len() == 0 || fuel == 0 {
        (net, 0)
    } else {
        let (end, k) = ran(
            judge,
            sets,
            full_id,
            light_id,
            stepped(judge, sets, full_id, light_id, net),
            (fuel - 1) as nat,
        );
        (end, k + 1)
    }
}

/// Messages of `src`, each with its destination and its source.
pub open spec fn stamped(src: u64, out: Seq<(u64, MsgView)>) -> Seq<(u64, u64, MsgView)> {
    out.map_values(|p: (u64, MsgView)| (p.0, src, p.1))
}

/// The announcements of the given full peers, one peer after another.
pub open spec fn full_news(full: Map<u64, NodeView>, ids: Seq<u64>) -> Seq<(u64, u64, MsgView)>
    decreases ids.len(),
{
    if ids.len() == 0 {
        Seq::empty()
    } else {
        let n = full[ids.last()];
        full_news(full, ids.drop_last()) + stamped(
            ids.last(),
            node::to_each(n.peers, MsgView::Status { height: n.chain.state.height }),
        )
    }
}

/// The announcements of the given light peers, one peer after another.
pub open spec fn light_news(light: Map<u64, LightView>, ids: Seq<u64>) -> Seq<
    (u64, u64, MsgView),
>
    decreases ids.len(),
{
    if ids.len() == 0 {
        Seq::empty()
    } else {
        let n = light[ids.last()];
        light_news(light, ids.drop_last()) + stamped(
            ids.last(),
            node::to_each(n.peers, MsgView::Status { height: n.tracker.height }),
        )
    }
}

/// Whatever headers are handed over, all that a light peer has followed stays
/// certified.
pub proof fn law_bridged_stays_followed(
    sets: Sets,
    n: LightView,
    first: Seq<Validator>,
    batch: Seq<CertifiedView>,
)
    requires
        spv::is_followed(n, first),
    ensures
        spv::is_followed(bridged(sets, n, batch), first),
    decreases batch.len(),
{
    if batch.len() > 0 {
        match sets(batch[0].header.height) {
            Some(set) => {
                spv::law_given_header_stays_followed(n, first, batch[0], set);
                law_bridged_stays_followed(
                    sets,
                    spv::given_header(n, batch[0], set).0,
                    first,
                    batch.skip(1),
                );
            },
            None => {
                law_bridged_stays_followed(sets, n, first, batch.skip(1));
            },
        }
    }
}

/// Headers of a certified full peer with different hashes, from the next one on, are
/// all followed, in order.
proof fn lemma_headers_are_followed(
    sets: Sets,
    n: LightView,
    first: Seq<Validator>,
    full: NodeView,
    batch: Seq<CertifiedView>,
)
    requires
        node::is_certified_node(full),
        full.chain.state.validators == first,
        spv::is_followed(n, first),
        n.tracker.validators == first,
        n.tracker.height + batch.len() <= full.blocks.len(),
        forall|i: int|
            0 <= i < batch.len() ==> #[trigger] batch[i] == node::certified_header(
                (full.blocks[n.tracker.height + i], full.certs[n.tracker.height + i]),
            ),
        forall|i: int, j: int|
            0 <= i < j < batch.len() ==> (#[trigger] batch[i]).header.block_hash != (
            #[trigger] batch[j]).header.block_hash,
        forall|i: int|
            0 <= i < batch.len() ==> !n.seen.contains((#[trigger] batch[i]).header.block_hash),
        forall|height: u64| #[trigger] sets(height) == Some(first),
    ensures
        bridged(sets, n, batch).tracker.height == n.tracker.height + batch.len(),
        bridged(sets, n, batch).tracker.validators == first,
        bridged(sets, n, batch).headers == n.headers + batch,
    decreases batch.len(),
{
    if batch.len() == 0 {
        assert(n.headers + batch =~= n.headers);
    } else {
        let k = n.tracker.height as int;
        let ch = batch[0];
        assert(batch[0] == node::certified_header((full.blocks[k + 0], full.certs[k + 0])));
        assert(full.blocks[k].height == k + 1);
        assert(sets(ch.header.height) == Some(first));
        assert(!n.seen.contains(batch[0].header.block_hash));
        let next = spv::given_header(n, ch, first).0;
        spv::law_given_header_stays_followed(n, first, ch, first);
        assert(next.tracker.height == k + 1);
        let tail = batch.skip(1);
        assert forall|i: int| 0 <= i < tail.len() implies #[trigger] tail[i]
            == node::certified_header(
            (full.blocks[next.tracker.height + i], full.certs[next.tracker.height + i]),
        ) by {
            assert(tail[i] == batch[i + 1]);
        }
        assert forall|i: int, j: int| 0 <= i < j < tail.len() implies (
        #[trigger] tail[i]).header.block_hash != (#[trigger] tail[j]).header.block_hash by {
            assert(tail[i] == batch[i + 1]);
            assert(tail[j] == batch[j + 1]);
        }
        assert forall|i: int| 0 <= i < tail.len() implies !next.seen.contains(
            (#[trigger] tail[i]).header.block_hash,
        ) by {
            assert(tail[i] == batch[i + 1]);
            assert(batch[0].header.block_hash != batch[i + 1].header.block_hash);
        }
        lemma_headers_are_followed(sets, next, first, full, tail);
        assert(n.headers + batch =~= next.headers + tail);
    }
}

/// Whether the encodings of two of the blocks collide.
pub open spec fn blocks_collide(bs: Seq<BlockView>) -> bool {
    exists|i: int, j: int|
        0 <= i < j < bs.len() && merkle::collide(
            codec::encoded_block(#[trigger] bs[i]),
            codec::encoded_block(#[trigger] bs[j]),
        )
}

/// A light peer catches up with a certified full peer of the same validators: it
/// follows every header that the full peer answers with, and a batch reaches up to
/// the full peer's height or is full. Blocks of different heights have different
/// hashes unless their encodings collide.
pub proof fn law_light_peers_catch_up(
    sets: Sets,
    n: LightView,
    first: Seq<Validator>,
    full: NodeView,
)
    requires
        node::is_certified_node(full),
        full.chain.state.validators == first,
        chain::countable(full.blocks),
        spv::is_followed(n, first),
        n.tracker.validators == first,
        n.tracker.height < full.blocks.len(),
        forall|i: int|
            n.tracker.height <= i < full.blocks.len() ==> !n.seen.contains(
                tx::block_hash(#[trigger] full.blocks[i]),
            ),
        forall|height: u64| #[trigger] sets(height) == Some(first),
    ensures
        ({
            let batch = node::headers_of(node::batch_from(full, (n.tracker.height + 1) as u64));
            let after = bridged(sets, n, batch);
            ||| blocks_collide(full.blocks)
            ||| {
                &&& after.tracker.height == n.tracker.height + batch.len()
                &&& after.tracker.height == full.chain.state.height || batch.len() == MAX_BATCH
                &&& after.tracker.validators == first
                &&& after.headers == n.headers + batch
            }
        }),
{
    let k = n.tracker.height as int;
    let pairs = node::batch_from(full, (k + 1) as u64);
    let batch = node::headers_of(pairs);
    assert forall|i: int| 0 <= i < batch.len() implies #[trigger] batch[i]
        == node::certified_header((full.blocks[k + i], full.certs[k + i])) by {
        assert(pairs[i] == (full.blocks[k + i], full.certs[k + i]));
    }
    assert forall|i: int| 0 <= i < batch.len() implies !n.seen.contains(
        (#[trigger] batch[i]).header.block_hash,
    ) by {
        assert(!n.seen.contains(tx::block_hash(full.blocks[k + i])));
    }
    if forall|i: int, j: int|
        0 <= i < j < batch.len() ==> (#[trigger] batch[i]).header.block_hash != (
        #[trigger] batch[j]).header.block_hash {
        lemma_headers_are_followed(sets, n, first, full, batch);
    } else {
        let (i, j) = choose|i: int, j: int|
            0 <= i < j < batch.len() && (#[trigger] batch[i]).header.block_hash == (
            #[trigger] batch[j]).header.block_hash;
        let (a, b) = (full.blocks[k + i], full.blocks[k + j]);
        assert(batch[i] == node::certified_header((a, full.certs[k + i])));
        assert(batch[j] == node::certified_header((b, full.certs[k + j])));
        assert(a.height == k + i + 1 && b.height == k + j + 1);
        assert(codec::block_countable(a) && codec::block_countable(b));
        chain::law_a_hash_names_one_block(a, b);
        assert(codec::canonical_block(a).height != codec::canonical_block(b).height);
        assert(merkle::collide(codec::encoded_block(a), codec::encoded_block(b)));
    }
}

impl LightNetwork {
    /// Whether every full peer is in order.
    pub open spec fn wf(&self) -> bool {
        forall|id: u64| #[trigger] self.full@.contains_key(id) ==> self.full@[id].wf()
    }

    /// A network of the given peers, with nothing under way.
    pub fn new(full: Vec<GossipNode>, light: Vec<LightGossipNode>) -> (r: LightNetwork)
        requires
            forall|i: int| 0 <= i < full@.len() ==> (#[trigger] full@[i]).wf(),
        ensures
            r.wf(),
            r@ == (LightNetView {
                full: network::gathered(network::list_view(full@)),
                light: gathered_lights(light_list_view(light@)),
                queue: Seq::<(u64, u64, MsgView)>::empty(),
            }),
    {
        let ghost all = light_list_view(light@);
        let mut rest = light;
        let mut table: BTreeMap<u64, LightGossipNode> = BTreeMap::new();
        let ghost mut k: int = 0;
        assert(lights_view(table@) =~= gathered_lights(all.take(0)));
        while rest.len() > 0
            invariant
                all == light_list_view(light@),
                0 <= k <= all.len(),
                rest@ == light@.skip(k),
                lights_view(table@) == gathered_lights(all.take(k)),
            decreases rest.len(),
        {
            let n = rest.remove(0);
            assert(n == light@[k]);
            assert(rest@ =~= light@.skip(k + 1));
            assert(all.take(k + 1).drop_last() =~= all.take(k));
            let ghost before = table@;
            let id: u64 = n.id;
            table.insert(id, n);
            assert(lights_view(table@) =~= lights_view(before).insert(id, n@));
            proof {
                k = k + 1;
            }
        }
        assert(all.take(k) =~= all);
        let fulls = network::Network::new(full);
        let r = LightNetwork { full: fulls.nodes, light: table, queue: VecDeque::new() };
        assert(r@.queue =~= Seq::<(u64, u64, MsgView)>::empty());
        r
    }

    fn enqueue(&mut self, src: u64, out: Outbox)
        ensures
            final(self)@ == sent(old(self)@, src, node::outbox_view(out@)),
            final(self).full == old(self).full,
            final(self).light == old(self).light,
    {
        let ghost known = members(self@);
        let ghost all = node::outbox_view(out@);
        let ghost mail = network::posted(known, src, all);
        let mut rest = out;
        let ghost mut k: int = 0;
        assert(all.skip(0) =~= all);
        assert(self@.queue + network::posted(known, src, all.skip(k)) == old(self)@.queue + mail);
        while rest.len() > 0
            invariant
                all == node::outbox_view(out@),
                0 <= k <= all.len(),
                rest@ == out@.skip(k),
                known == members(old(self)@),
                mail == network::posted(known, src, all),
                self.full == old(self).full,
                self.light == old(self).light,
                self@.queue + network::posted(known, src, all.skip(k)) == old(self)@.queue + mail,
            decreases rest.len(),
        {
            let (dst, m) = rest.remove(0);
            proof {
                assert((dst, m) == out@[k]);
                assert(rest@ =~= out@.skip(k + 1));
                assert(all.skip(k).skip(1) =~= all.skip(k + 1));
                assert(all.skip(k)[0] == (dst, m@));
            }
            if self.full.contains_key(&dst) || self.light.contains_key(&dst) {
                let ghost before = self@.queue;
                let ghost mv = m@;
                self.queue.push_back((dst, src, m));
                proof {
                    assert(self@.queue =~= before.push((dst, src, mv)));
                    let tail = network::posted(known, src, all.skip(k + 1));
                    assert(before + (seq![(dst, src, mv)] + tail) =~= before.push((dst, src, mv))
                        + tail);
                }
            }
            proof {
                k = k + 1;
            }
        }
        proof {
            assert(all.skip(k) =~= Seq::<(u64, MsgView)>::empty());
            assert(self@.queue + Seq::<(u64, u64, MsgView)>::empty() =~= self@.queue);
            assert(self@ =~= sent(old(self)@, src, all));
        }
    }

    fn deliver<F: Fn(&Assessment) -> u32>(
        &mut self,
        engine: &F,
        dst: u64,
        src: u64,
        m: GossipMsg,
    )
        requires
            graph::is_function(*engine),
            old(self).wf(),
        ensures
            final(self).wf(),
            final(self)@ == delivered(graph::judge(*engine), old(self)@, dst, src, m@),
    {
        if self.full.contains_key(&dst) {
            let out = entry_mut(&mut self.full, dst).on_message(engine, src, m);
            assert(network::nodes_view(self.full@) =~= network::nodes_view(
                old(self).full@,
            ).insert(dst, self.full@[dst]@));
            self.enqueue(dst, out);
        } else if self.light.contains_key(&dst) {
            let out = entry_mut(&mut self.light, dst).on_message(src, m);
            assert(lights_view(self.light@) =~= lights_view(old(self).light@).insert(
                dst,
                self.light@[dst]@,
            ));
            self.enqueue(dst, out);
        }
    }

    fn post_all(&mut self, src: u64, out: Outbox)
        ensures
            final(self).full == old(self).full,
            final(self).light == old(self).light,
            final(self)@.queue == old(self)@.queue + stamped(src, node::outbox_view(out@)),
    {
        let ghost all = stamped(src, node::outbox_view(out@));
        let mut rest = out;
        let ghost mut k: int = 0;
        assert(self@.queue + all.take(0) =~= self@.queue);
        while rest.len() > 0
            invariant
                all == stamped(src, node::outbox_view(out@)),
                0 <= k <= all.len(),
                rest@ == out@.skip(k),
                self.full == old(self).full,
                self.light == old(self).light,
                self@.queue == old(self)@.queue + all.take(k),
            decreases rest.len(),
        {
            let (dst, m) = rest.remove(0);
            let ghost before = self@.queue;
            let ghost mv = m@;
            proof {
                assert((dst, m) == out@[k]);
                assert(rest@ =~= out@.skip(k + 1));
            }
            self.queue.push_back((dst, src, m));
            proof {
                assert(self@.queue =~= before.push((dst, src, mv)));
                assert(all.take(k + 1) =~= all.take(k).push(all[k]));
                assert(self@.queue =~= old(self)@.queue + all.take(k + 1));
                k = k + 1;
            }
        }
        assert(all.take(k) =~= all);
    }

    /// Every peer announces its height, full peers first.
    pub fn announce_all(&mut self)
        requires
            old(self).wf(),
        ensures
            final(self).wf(),
            final(self)@ == (LightNetView {
                queue: old(self)@.queue + full_news(
                    old(self)@.full,
                    ordered::in_order(old(self)@.full.dom()),
                ) + light_news(old(self)@.light, ordered::in_order(old(self)@.light.dom())),
                ..old(self)@
            }),
    {
        let ids = sorted_keys(&self.full);
        assert(self.full@.dom() =~= self@.full.dom());
        assert(self.light@.dom() =~= self@.light.dom());
        let mut i: usize = 0;
        proof {
            assert(ids@.take(0) =~= Seq::<u64>::empty());
            assert(self@.queue + Seq::<(u64, u64, MsgView)>::empty() =~= self@.queue);
        }
        while i < ids.len()
            invariant
                i <= ids.len(),
                self.full == old(self).full,
                self.light == old(self).light,
                ordered::lists(ids@, old(self)@.full.dom()),
                self@.queue == old(self)@.queue + full_news(
                    old(self)@.full,
                    ids@.take(i as int),
                ),
            decreases ids.len() - i,
        {
            let id: u64 = ids[i];
            assert(ids@.contains(id));
            let out = match self.full.get(&id) {
                Some(n) => n.announce(),
                None => Vec::new(),
            };
            let ghost before = self@.queue;
            self.post_all(id, out);
            proof {
                assert(ids@.take(i + 1).drop_last() =~= ids@.take(i as int));
                assert(self@.queue =~= old(self)@.queue + full_news(
                    old(self)@.full,
                    ids@.take(i + 1),
                ));
            }
            i += 1;
        }
        assert(ids@.take(i as int) =~= ids@);
        let ghost halfway = self@.queue;
        let ids = sorted_keys(&self.light);
        let mut i: usize = 0;
        proof {
            assert(ids@.take(0) =~= Seq::<u64>::empty());
            assert(halfway + Seq::<(u64, u64, MsgView)>::empty() =~= halfway);
        }
        while i < ids.len()
            invariant
                i <= ids.len(),
                self.full == old(self).full,
                self.light == old(self).light,
                ordered::lists(ids@, old(self)@.light.dom()),
                self@.queue == halfway + light_news(old(self)@.light, ids@.take(i as int)),
            decreases ids.len() - i,
        {
            let id: u64 = ids[i];
            assert(ids@.contains(id));
            let out = match self.light.get(&id) {
                Some(n) => n.announce(),
                None => Vec::new(),
            };
            self.post_all(id, out);
            proof {
                assert(ids@.take(i + 1).drop_last() =~= ids@.take(i as int));
                assert(self@.queue =~= halfway + light_news(old(self)@.light, ids@.take(i + 1)));
            }
            i += 1;
        }
        assert(ids@.take(i as int) =~= ids@);
    }

    fn bridge<G: Fn(u64) -> Option<ValidatorSet>>(
        n: &mut LightGossipNode,
        source: &G,
        batch: &Vec<CertifiedHeader>,
    )
        requires
            is_source(*source),
        ensures
            final(n)@ == bridged(sets_of(*source), old(n)@, gossip::headers_view(batch@)),
    {
        let ghost all = gossip::headers_view(batch@);
        let ghost sets = sets_of(*source);
        let mut i: usize = 0;
        assert(all.skip(0) =~= all);
        while i < batch.len()
            invariant
                i <= batch.len(),
                is_source(*source),
                all == gossip::headers_view(batch@),
                sets == sets_of(*source),
                bridged(sets, n@, all.skip(i as int)) == bridged(sets, old(n)@, all),
            decreases batch.len() - i,
        {
            assert(all.skip(i as int).skip(1) =~= all.skip(i + 1));
            let height: u64 = batch[i].height();
            let found = source(height);
            assert(offers(*source, height, parse::viewed_option(found)));
            if let Some(set) = found {
                let ch = batch[i].clone();
                let _ = n.apply_header(ch, &set);
            }
            i += 1;
        }
    }

    /// Delivers messages until none is under way, or the limit is reached. Headers
    /// from the full peer `full_id` to the light peer `light_id` are handed over
    /// with the set that `source` gives for their height. Returns how many messages
    /// were delivered.
    pub fn run<F: Fn(&Assessment) -> u32, G: Fn(u64) -> Option<ValidatorSet>>(
        &mut self,
        engine: &F,
        full_id: u64,
        light_id: u64,
        source: &G,
    ) -> (r: usize)
        requires
            graph::is_function(*engine),
            is_source(*source),
            old(self).wf(),
        ensures
            final(self).wf(),
            (final(self)@, r as nat) == ran(
                graph::judge(*engine),
                sets_of(*source),
                full_id,
                light_id,
                old(self)@,
                MAX_DELIVERIES as nat,
            ),
    {
        let ghost judge = graph::judge(*engine);
        let ghost sets = sets_of(*source);
        let ghost goal = ran(
            judge,
            sets,
            full_id,
            light_id,
            old(self)@,
            MAX_DELIVERIES as nat,
        );
        let mut count: usize = 0;
        while count < MAX_DELIVERIES
            invariant_except_break
                goal.0 == ran(
                    judge,
                    sets,
                    full_id,
                    light_id,
                    self@,
                    (MAX_DELIVERIES - count) as nat,
                ).0,
                goal.1 == count + ran(
                    judge,
                    sets,
                    full_id,
                    light_id,
                    self@,
                    (MAX_DELIVERIES - count) as nat,
                ).1,
            invariant
                count <= MAX_DELIVERIES,
                self.wf(),
                graph::is_function(*engine),
                is_source(*source),
                judge == graph::judge(*engine),
                sets == sets_of(*source),
            ensures
                goal == (self@, count as nat),
            decreases MAX_DELIVERIES - count,
        {
            let ghost start = self@;
            match self.queue.pop_front() {
                None => {
                    assert(start.queue.len() == 0);
                    break;
                },
                Some((dst, src, m)) => {
                    proof {
                        assert(start.queue[0] == (dst, src, m@));
                        assert(self@.queue =~= start.queue.skip(1));
                        assert(self@ =~= (LightNetView { queue: start.queue.skip(1), ..start }));
                    }
                    self.pass_on(engine, full_id, light_id, source, dst, src, m);
                    assert(self@ == stepped(judge, sets, full_id, light_id, start));
                },
            }
            count += 1;
        }
        count
    }

    fn pass_on<F: Fn(&Assessment) -> u32, G: Fn(u64) -> Option<ValidatorSet>>(
        &mut self,
        engine: &F,
        full_id: u64,
        light_id: u64,
        source: &G,
        dst: u64,
        src: u64,
        m: GossipMsg,
    )
        requires
            graph::is_function(*engine),
            is_source(*source),
            old(self).wf(),
        ensures
            final(self).wf(),
            final(self)@ == if dst == light_id && src == full_id && m@ is Headers {
                if old(self)@.light.contains_key(light_id) {
                    LightNetView {
                        light: old(self)@.light.insert(
                            light_id,
                            bridged(
                                sets_of(*source),
                                old(self)@.light[light_id],
                                m@->Headers_0,
                            ),
                        ),
                        ..old(self)@
                    }
                } else {
                    old(self)@
                }
            } else {
                delivered(graph::judge(*engine), old(self)@, dst, src, m@)
            },
    {
        if dst == light_id && src == full_id {
            if let GossipMsg::Headers(batch) = &m {
                if self.light.contains_key(&light_id) {
                    Self::bridge(entry_mut(&mut self.light, light_id), source, batch);
                    assert(lights_view(self.light@) =~= lights_view(old(self).light@).insert(
                        light_id,
                        self.light@[light_id]@,
                    ));
                }
                return;
            }
        }
        self.deliver(engine, dst, src, m);
    }

    /// The full peer with the given id.
    pub fn full_node(&self, id: u64) -> (r: &GossipNode)
        requires
            self@.full.contains_key(id),
        ensures
            *r == self.full@[id],
            r@ == self@.full[id],
    {
        self.full.get(&id).unwrap()
    }

    /// The light peer with the given id.
    pub fn light_node(&self, id: u64) -> (r: &LightGossipNode)
        requires
            self@.light.contains_key(id),
        ensures
            *r == self.light@[id],
            r@ == self@.light[id],
    {
        self.light.get(&id).unwrap()
    }

    /// Takes a full peer out of the network.
    pub fn take_full(&mut self, id: u64) -> (r: GossipNode)
        requires
            old(self).wf(),
            old(self)@.full.contains_key(id),
        ensures
            final(self).wf(),
            r.wf(),
            r@ == old(self)@.full[id],
            final(self)@ == (LightNetView { full: old(self)@.full.remove(id), ..old(self)@ }),
    {
        let r = self.full.remove(&id).unwrap();
        assert(network::nodes_view(self.full@) =~= old(self)@.full.remove(id));
        r
    }

    /// Takes a light peer out of the network.
    pub fn take_light(&mut self, id: u64) -> (r: LightGossipNode)
        requires
            old(self).wf(),
            old(self)@.light.contains_key(id),
        ensures
            final(self).wf(),
            r@ == old(self)@.light[id],
            final(self)@ == (LightNetView { light: old(self)@.light.remove(id), ..old(self)@ }),
    {
        let r = self.light.remove(&id).unwrap();
        assert(lights_view(self.light@) =~= old(self)@.light.remove(id));
        r
    }

    /// Puts a full peer into the network, under its own id.
    pub fn put_full(&mut self, n: GossipNode)
        requires
            old(self).wf(),
            n.wf(),
        ensures
            final(self).wf(),
            final(self)@ == (LightNetView {
                full: old(self)@.full.insert(n@.id, n@),
                ..old(self)@
            }),
    {
        let id: u64 = n.id;
        let ghost nv = n@;
        self.full.insert(id, n);
        assert(network::nodes_view(self.full@) =~= old(self)@.full.insert(id, nv));
    }

    /// Puts a light peer into the network, under its own id.
    pub fn put_light(&mut self, n: LightGossipNode)
        requires
            old(self).wf(),
        ensures
            final(self).wf(),
            final(self)@ == (LightNetView {
                light: old(self)@.light.insert(n@.id, n@),
                ..old(self)@
            }),
    {
        let id: u64 = n.id;
        let ghost nv = n@;
        self.light.insert(id, n);
        assert(lights_view(self.light@) =~= old(self)@.light.insert(id, nv));
    }
}

} // verus!
