//! What happens to messages under way.
//!
//! The laws below say where messages go and in what order they arrive, what one
//! delivery changes and what it leaves alone, and when a run ends.

use vstd::prelude::*;

use crate::gossip::MsgView;
use crate::graph::Judge;
use crate::light::CertifiedView;
use crate::light_network;
use crate::light_network::{LightNetView, Sets};
use crate::network;
use crate::network::{NetView, MAX_DELIVERIES};
use crate::node;
use crate::node::NodeView;
use crate::spv;
use crate::spv::LightView;

verus! {

// --- sending ------------------------------------------------------------------

/// Messages are posted in the order in which they were sent, each with its destination
/// and its source; one to somebody unknown is dropped, and no other.
pub proof fn law_messages_are_posted_in_order(
    known: Set<u64>,
    src: u64,
    out: Seq<(u64, MsgView)>,
    more: Seq<(u64, MsgView)>,
    to: u64,
    m: MsgView,
)
    ensures
        network::posted(known, src, out + more) == network::posted(known, src, out)
            + network::posted(known, src, more),
        network::posted(known, src, Seq::empty()).len() == 0,
        known.contains(to) ==> network::posted(known, src, seq![(to, m)]) == seq![(to, src, m)],
        !known.contains(to) ==> network::posted(known, src, seq![(to, m)]).len() == 0,
    decreases out.len(),
{
    let one = seq![(to, m)];
    assert(one.skip(1) =~= Seq::<(u64, MsgView)>::empty());
    assert(network::posted(known, src, one.skip(1)) =~= Seq::<(u64, u64, MsgView)>::empty());
    if known.contains(to) {
        assert(network::posted(known, src, one) =~= seq![(to, src, m)]);
    }
    if out.len() == 0 {
        assert(out + more =~= more);
        assert(network::posted(known, src, out) + network::posted(known, src, more)
            =~= network::posted(known, src, more));
    } else {
        assert((out + more).skip(1) =~= out.skip(1) + more);
        law_messages_are_posted_in_order(known, src, out.skip(1), more, to, m);
        assert(network::posted(known, src, out + more) =~= network::posted(known, src, out)
            + network::posted(known, src, more));
    }
}

/// What is sent goes behind all that is under way, and no node changes by sending.
pub proof fn law_what_is_sent_goes_last(net: NetView, src: u64, out: Seq<(u64, MsgView)>)
    ensures
        network::sent(net, src, out).nodes == net.nodes,
        network::sent(net, src, out).queue == net.queue + network::posted(
            net.nodes.dom(),
            src,
            out,
        ),
{
}

/// Of several nodes with one id the last one listed is in the network; nobody is who is
/// not listed.
pub proof fn law_the_last_node_listed_counts(list: Seq<NodeView>, k: int)
    requires
        0 <= k < list.len(),
        forall|i: int| k < i < list.len() ==> (#[trigger] list[i]).id != list[k].id,
    ensures
        network::gathered(list).contains_key(list[k].id),
        network::gathered(list)[list[k].id] == list[k],
        forall|id: u64| #[trigger]
            network::gathered(list).contains_key(id) ==> exists|i: int|
                0 <= i < list.len() && (#[trigger] list[i]).id == id,
    decreases list.len(),
{
    lemma_gathered_are_listed(list);
    if k < list.len() - 1 {
        let before = list.drop_last();
        assert(list[list.len() - 1].id != list[k].id);
        assert(before[k] == list[k]);
        assert forall|i: int| k < i < before.len() implies (#[trigger] before[i]).id
            != before[k].id by {
            assert(before[i] == list[i]);
        }
        law_the_last_node_listed_counts(before, k);
    }
}

proof fn lemma_gathered_are_listed(list: Seq<NodeView>)
    ensures
        forall|id: u64| #[trigger]
            network::gathered(list).contains_key(id) ==> exists|i: int|
                0 <= i < list.len() && (#[trigger] list[i]).id == id,
    decreases list.len(),
{
    if list.len() > 0 {
        let before = list.drop_last();
        lemma_gathered_are_listed(before);
        assert forall|id: u64| #[trigger] network::gathered(list).contains_key(id) implies exists|
            i: int,
        |
            0 <= i < list.len() && (#[trigger] list[i]).id == id by {
            if id == list.last().id {
                assert(list[list.len() - 1].id == id);
            } else {
                assert(network::gathered(before).contains_key(id));
                let i = choose|i: int| 0 <= i < before.len() && (#[trigger] before[i]).id == id;
                assert(list[i].id == id);
            }
        }
    }
}

/// Announcing changes no node; each node in turn tells its peers its own height.
pub proof fn law_each_node_announces_its_height(net: NetView, ids: Seq<u64>, p: u64)
    requires
        net.nodes.contains_key(p),
    ensures
        network::announced(net, Seq::empty()) == net,
        network::announced(net, ids).nodes == net.nodes,
        network::announced(net, ids.push(p)).queue == network::announced(net, ids).queue
            + network::posted(
            net.nodes.dom(),
            p,
            node::to_each(
                net.nodes[p].peers,
                MsgView::Status { height: net.nodes[p].chain.state.height },
            ),
        ),
    decreases ids.len(),
{
    assert(ids.push(p).drop_last() =~= ids);
    if ids.len() > 0 {
        law_each_node_announces_its_height(net, ids.drop_last(), p);
    }
}

/// Nodes agree exactly where no two of them have different heads.
pub proof fn law_agreement_is_of_heads(net: NetView)
    ensures
        !network::agree(net) <==> exists|a: u64, b: u64|
            {
                &&& #[trigger] net.nodes.contains_key(a)
                &&& #[trigger] net.nodes.contains_key(b)
                &&& net.nodes[a].chain.head != net.nodes[b].chain.head
            },
{
    if !network::agree(net) {
        let (a, b) = choose|a: u64, b: u64|
            #![trigger net.nodes[a], net.nodes[b]]
            net.nodes.contains_key(a) && net.nodes.contains_key(b) && net.nodes[a].chain.head
                != net.nodes[b].chain.head;
        assert(net.nodes.contains_key(a) && net.nodes.contains_key(b));
    }
}

// --- delivering ---------------------------------------------------------------

/// One delivery takes the message that was sent first. Its destination reacts to it as
/// coming from its source; nobody else changes, the other messages stay in order, and
/// what the destination sends goes behind them.
pub proof fn law_one_delivery(judge: Judge, net: NetView)
    requires
        net.queue.len() > 0,
        network::addressed(net),
    ensures
        ({
            let (dst, src, m) = net.queue[0];
            let (n, out) = node::reacted(judge, net.nodes[dst], src, m);
            let after = network::stepped(judge, net);
            &&& after.nodes.dom() == net.nodes.dom()
            &&& after.nodes[dst] == n
            &&& forall|id: u64| id != dst ==> #[trigger] after.nodes[id] == net.nodes[id]
            &&& after.queue.len() >= net.queue.len() - 1
            &&& after.queue.take(net.queue.len() - 1) == net.queue.skip(1)
            &&& after.queue.skip(net.queue.len() - 1) == network::posted(net.nodes.dom(), dst, out)
        }),
{
    let (dst, src, m) = net.queue[0];
    let (n, out) = node::reacted(judge, net.nodes[dst], src, m);
    let after = network::stepped(judge, net);
    assert(net.nodes.contains_key(net.queue[0].0));
    assert(net.nodes.insert(dst, n).dom() =~= net.nodes.dom());
    assert(after.nodes.dom() =~= net.nodes.dom());
    let mail = network::posted(net.nodes.dom(), dst, out);
    assert(after.queue == net.queue.skip(1) + mail);
    assert(after.queue.take(net.queue.len() - 1) =~= net.queue.skip(1));
    assert(after.queue.skip(net.queue.len() - 1) =~= mail);
}

/// A run of one delivery is one delivery; a run can be interrupted and taken up again;
/// it stops early only where nothing is under way any more, and tells how many messages
/// it delivered.
pub proof fn law_runs_resume(judge: Judge, net: NetView, a: nat, b: nat)
    ensures
        ({
            let (mid, i) = network::ran(judge, net, a);
            let (end, j) = network::ran(judge, mid, b);
            &&& network::ran(judge, net, a + b) == (end, i + j)
            &&& i <= a
            &&& i < a ==> mid.queue.len() == 0
        }),
        net.queue.len() == 0 ==> network::ran(judge, net, a) == (net, 0nat),
        net.queue.len() > 0 ==> network::ran(judge, net, 1) == (network::stepped(judge, net), 1nat),
    decreases a,
{
    reveal_with_fuel(network::ran, 2);
    if net.queue.len() > 0 && a > 0 {
        let next = network::stepped(judge, net);
        law_runs_resume(judge, next, (a - 1) as nat, b);
        assert((a + b - 1) as nat == (a - 1) as nat + b);
    }
}

/// A run ends after a million and one deliveries at the latest.
pub proof fn law_runs_are_bounded()
    ensures
        MAX_DELIVERIES == 1_000_001,
{
}

// --- light peers --------------------------------------------------------------

/// What is sent among full and light peers goes to either, behind all that is under
/// way.
pub proof fn law_light_and_full_peers_are_reached(
    net: LightNetView,
    src: u64,
    out: Seq<(u64, MsgView)>,
    id: u64,
)
    ensures
        light_network::members(net).contains(id) <==> net.full.contains_key(id)
            || net.light.contains_key(id),
        light_network::sent(net, src, out).full == net.full,
        light_network::sent(net, src, out).light == net.light,
        light_network::sent(net, src, out).queue == net.queue + network::posted(
            light_network::members(net),
            src,
            out,
        ),
{
}

/// One delivery to a full peer: it alone changes, as it reacts, and what it sends goes
/// behind the other messages. Headers for the chosen light peer do not come this way.
pub proof fn law_one_delivery_to_a_full_peer(
    judge: Judge,
    sets: Sets,
    full_id: u64,
    light_id: u64,
    net: LightNetView,
)
    requires
        net.queue.len() > 0,
        net.full.contains_key(net.queue[0].0),
        !(net.queue[0].0 == light_id && net.queue[0].1 == full_id && net.queue[0].2 is Headers),
    ensures
        ({
            let (dst, src, m) = net.queue[0];
            let (n, out) = node::reacted(judge, net.full[dst], src, m);
            let after = light_network::stepped(judge, sets, full_id, light_id, net);
            &&& after.full == net.full.insert(dst, n)
            &&& after.light == net.light
            &&& after.queue == net.queue.skip(1) + network::posted(
                net.full.dom().union(net.light.dom()),
                dst,
                out,
            )
        }),
{
    let (dst, src, m) = net.queue[0];
    let (n, out) = node::reacted(judge, net.full[dst], src, m);
    assert(net.full.insert(dst, n).dom() =~= net.full.dom());
}

/// One delivery to a light peer that is not a full one, of anything but headers from the
/// chosen full peer to the chosen light peer: it alone changes, as it reacts, and what
/// it sends goes behind the other messages.
pub proof fn law_one_delivery_to_a_light_peer(
    judge: Judge,
    sets: Sets,
    full_id: u64,
    light_id: u64,
    net: LightNetView,
)
    requires
        net.queue.len() > 0,
        !net.full.contains_key(net.queue[0].0),
        net.light.contains_key(net.queue[0].0),
        !(net.queue[0].0 == light_id && net.queue[0].1 == full_id && net.queue[0].2 is Headers),
    ensures
        ({
            let (dst, src, m) = net.queue[0];
            let (n, out) = spv::light_reacted(net.light[dst], src, m);
            let after = light_network::stepped(judge, sets, full_id, light_id, net);
            &&& after.full == net.full
            &&& after.light == net.light.insert(dst, n)
            &&& after.queue == net.queue.skip(1) + network::posted(
                net.full.dom().union(net.light.dom()),
                dst,
                out,
            )
        }),
{
    let (dst, src, m) = net.queue[0];
    let (n, out) = spv::light_reacted(net.light[dst], src, m);
    assert(net.light.insert(dst, n).dom() =~= net.light.dom());
}

/// Headers from the chosen full peer to the chosen light peer are handed over to it, and
/// nothing else happens.
pub proof fn law_chosen_headers_are_handed_over(
    judge: Judge,
    sets: Sets,
    full_id: u64,
    light_id: u64,
    net: LightNetView,
    batch: Seq<CertifiedView>,
)
    requires
        net.queue.len() > 0,
        net.queue[0] == (light_id, full_id, MsgView::Headers(batch)),
        net.light.contains_key(light_id),
    ensures
        light_network::stepped(judge, sets, full_id, light_id, net) == (LightNetView {
            full: net.full,
            light: net.light.insert(
                light_id,
                light_network::bridged(sets, net.light[light_id], batch),
            ),
            queue: net.queue.skip(1),
        }),
{
}

/// Handed-over headers are taken one after another, each with the set known for its own
/// height; one whose set is not known is passed over.
pub proof fn law_headers_are_handed_over_in_turn(
    sets: Sets,
    n: LightView,
    first: Seq<CertifiedView>,
    second: Seq<CertifiedView>,
    ch: CertifiedView,
)
    ensures
        light_network::bridged(sets, n, Seq::empty()) == n,
        light_network::bridged(sets, n, first + second) == light_network::bridged(
            sets,
            light_network::bridged(sets, n, first),
            second,
        ),
        sets(ch.header.height) matches Some(set) ==> light_network::bridged(sets, n, seq![ch])
            == spv::given_header(n, ch, set).0,
        sets(ch.header.height) is None ==> light_network::bridged(sets, n, seq![ch]) == n,
    decreases first.len(),
{
    let one = seq![ch];
    assert(one.skip(1) =~= Seq::<CertifiedView>::empty());
    reveal_with_fuel(light_network::bridged, 2);
    if first.len() == 0 {
        assert(first + second =~= second);
    } else {
        let next = match sets(first[0].header.height) {
            Some(set) => spv::given_header(n, first[0], set).0,
            None => n,
        };
        assert((first + second).skip(1) =~= first.skip(1) + second);
        law_headers_are_handed_over_in_turn(sets, next, first.skip(1), second, ch);
    }
}

/// A run among full and light peers can be interrupted and taken up again; it stops
/// early only where nothing is under way any more.
pub proof fn law_light_runs_resume(
    judge: Judge,
    sets: Sets,
    full_id: u64,
    light_id: u64,
    net: LightNetView,
    a: nat,
    b: nat,
)
    ensures
        ({
            let (mid, i) = light_network::ran(judge, sets, full_id, light_id, net, a);
            let (end, j) = light_network::ran(judge, sets, full_id, light_id, mid, b);
            &&& light_network::ran(judge, sets, full_id, light_id, net, a + b) == (end, i + j)
            &&& i <= a
            &&& i < a ==> mid.queue.len() == 0
        }),
        net.queue.len() == 0 ==> light_network::ran(judge, sets, full_id, light_id, net, a) == (
            net,
            0nat,
        ),
        net.queue.len() > 0 ==> light_network::ran(judge, sets, full_id, light_id, net, 1) == (
            light_network::stepped(judge, sets, full_id, light_id, net),
            1nat,
        ),
    decreases a,
{
    reveal_with_fuel(light_network::ran, 2);
    if net.queue.len() > 0 && a > 0 {
        let next = light_network::stepped(judge, sets, full_id, light_id, net);
        law_light_runs_resume(judge, sets, full_id, light_id, next, (a - 1) as nat, b);
        assert((a + b - 1) as nat == (a - 1) as nat + b);
    }
}

/// In an announcement each full peer tells its peers the height of its chain, and each
/// light peer tells its peers the height that it has followed.
pub proof fn law_each_peer_announces_its_height(
    full: Map<u64, NodeView>,
    light: Map<u64, LightView>,
    ids: Seq<u64>,
    p: u64,
)
    ensures
        light_network::full_news(full, Seq::empty()).len() == 0,
        light_network::light_news(light, Seq::empty()).len() == 0,
        ({
            let told = node::to_each(
                full[p].peers,
                MsgView::Status { height: full[p].chain.state.height },
            );
            let all = light_network::full_news(full, ids.push(p));
            let n = light_network::full_news(full, ids).len() as int;
            &&& all.take(n) == light_network::full_news(full, ids)
            &&& all.len() == n + told.len()
            &&& forall|i: int|
                0 <= i < told.len() ==> all[n + i] == ((#[trigger] told[i]).0, p, told[i].1)
        }),
        ({
            let told = node::to_each(
                light[p].peers,
                MsgView::Status { height: light[p].tracker.height },
            );
            let all = light_network::light_news(light, ids.push(p));
            let n = light_network::light_news(light, ids).len() as int;
            &&& all.take(n) == light_network::light_news(light, ids)
            &&& all.len() == n + told.len()
            &&& forall|i: int|
                0 <= i < told.len() ==> all[n + i] == ((#[trigger] told[i]).0, p, told[i].1)
        }),
{
    assert(ids.push(p).drop_last() =~= ids);
    let f = light_network::full_news(full, ids);
    assert(light_network::full_news(full, ids.push(p)).take(f.len() as int) =~= f);
    let l = light_network::light_news(light, ids);
    assert(light_network::light_news(light, ids.push(p)).take(l.len() as int) =~= l);
}

} // verus!
