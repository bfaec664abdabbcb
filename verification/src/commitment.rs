//! What the two roots of the state commit to.
//!
//! The state digest commits to the whole state, the Merkle root to its accounts,
//! reputations and graph nodes. Both hold up to the NaNs in the state, which are all
//! written alike, and up to collisions of the hash.

use vstd::prelude::*;

use crate::bytes;
use crate::codec;
use crate::graph::GraphNode;
use crate::ieee;
use crate::merkle;
use crate::ordered;
use crate::parse;
use crate::roots;
use crate::state::{Account, StateView};
use crate::validator;
use crate::validator::Validator;

verus! {

/// Whether the entries of a state can be counted in 64-bit words, as those of every
/// state in memory can.
pub open spec fn countable(st: StateView) -> bool {
    &&& st.accounts.dom().finite()
    &&& st.reviewers.dom().finite()
    &&& roots::account_ids(st).len() <= u64::MAX
    &&& roots::standing_ids(st).len() <= u64::MAX
    &&& st.graph.len() <= u64::MAX
    &&& st.validators.len() <= u64::MAX
}

/// Whether two states hold the same reputations, up to their NaNs.
pub open spec fn same_standings(a: StateView, b: StateView) -> bool {
    &&& a.reviewers.dom() == b.reviewers.dom()
    &&& forall|id: u64| #[trigger]
        a.reviewers.contains_key(id) ==> ieee::canonical(a.reviewers[id]) == ieee::canonical(
            b.reviewers[id],
        )
}

/// Whether two nodes hold the same knowledge in the same place, up to its NaNs.
pub open spec fn same_knowledge(m: GraphNode, n: GraphNode) -> bool {
    &&& m.node_id == n.node_id
    &&& parse::canonical_emb(m.embedding) == parse::canonical_emb(n.embedding)
    &&& m.domain == n.domain
}

/// Whether two states hold the same knowledge in the same order, up to its NaNs.
pub open spec fn same_graphs(a: StateView, b: StateView) -> bool {
    &&& a.graph.len() == b.graph.len()
    &&& forall|i: int|
        0 <= i < a.graph.len() ==> same_knowledge(#[trigger] a.graph[i], b.graph[i])
}

// --- leaves tell what they commit to ------------------------------------------

proof fn lemma_joined_width<T>(xs: Seq<T>, f: spec_fn(T) -> Seq<u8>, width: nat)
    requires
        forall|i: int| 0 <= i < xs.len() ==> f(#[trigger] xs[i]).len() == width,
    ensures
        parse::joined(xs, f).len() == xs.len() * width,
    decreases xs.len(),
{
    if xs.len() > 0 {
        let tail = xs.skip(1);
        assert forall|i: int| 0 <= i < tail.len() implies f(#[trigger] tail[i]).len() == width by {
            assert(tail[i] == xs[i + 1]);
        }
        lemma_joined_width(tail, f, width);
        assert(f(xs[0]).len() == width);
        assert(xs.len() * width == tail.len() * width + width) by (nonlinear_arith)
            requires
                xs.len() == tail.len() + 1,
        ;
    }
}

/// The leaf of an account tells its id and the account.
proof fn lemma_account_leaf_tells(i: u64, a: Account, j: u64, b: Account)
    ensures
        roots::account_leaf(i, a).len() == 88,
        roots::account_leaf(i, a) == roots::account_leaf(j, b) ==> i == j && a == b,
{
    broadcast use bytes::lemma_be64_len;

    let x = roots::account_leaf(i, a);
    let y = roots::account_leaf(j, b);
    if x == y {
        assert(bytes::be64(i) =~= x.take(8));
        assert(bytes::be64(j) =~= y.take(8));
        let nothing = Seq::<u8>::empty();
        assert(bytes::be64(i) + nothing =~= bytes::be64(i));
        assert(bytes::be64(j) + nothing =~= bytes::be64(j));
        parse::lemma_cut_word(i, j, nothing, nothing);
        roots::lemma_account_leaf_injective(i, a, b);
    }
}

/// The leaf of a reputation tells its id and its canonical bits.
proof fn lemma_standing_leaf_tells(i: u64, a: u32, j: u64, b: u32)
    ensures
        roots::standing_leaf(i, a).len() == 12,
        roots::standing_leaf(i, a) == roots::standing_leaf(j, b) ==> i == j && ieee::canonical(a)
            == ieee::canonical(b),
{
    bytes::lemma_be64_len(i);
    bytes::lemma_be32_len(ieee::canonical(a));
    if roots::standing_leaf(i, a) == roots::standing_leaf(j, b) {
        let (x, y) = (bytes::be32(ieee::canonical(a)), bytes::be32(ieee::canonical(b)));
        parse::lemma_cut_word(i, j, x, y);
        let nothing = Seq::<u8>::empty();
        assert(x + nothing =~= x);
        assert(y + nothing =~= y);
        bytes::lemma_be32_word32(ieee::canonical(a), nothing);
        bytes::lemma_be32_word32(ieee::canonical(b), nothing);
    }
}

/// The leaf of a graph node tells its place and its knowledge.
proof fn lemma_graph_leaf_tells(m: GraphNode, n: GraphNode)
    ensures
        roots::graph_leaf(m).len() == roots::graph_leaf(n).len(),
        roots::graph_leaf(m) == roots::graph_leaf(n) ==> same_knowledge(m, n),
{
    broadcast use bytes::lemma_be64_len;

    let (em, en) = (parse::canonical_emb(m.embedding), parse::canonical_emb(n.embedding));
    assert forall|i: int| 0 <= i < em@.len() implies parse::word_bytes()(#[trigger] em@[i]).len()
        == 4 by {
        bytes::lemma_be32_len(em@[i]);
    }
    assert forall|i: int| 0 <= i < en@.len() implies parse::word_bytes()(#[trigger] en@[i]).len()
        == 4 by {
        bytes::lemma_be32_len(en@[i]);
    }
    lemma_joined_width(em@, parse::word_bytes(), 4);
    lemma_joined_width(en@, parse::word_bytes(), 4);
    bytes::lemma_be32_len(m.domain);
    bytes::lemma_be32_len(n.domain);
    if roots::graph_leaf(m) == roots::graph_leaf(n) {
        parse::lemma_cut_word(m.node_id, n.node_id, roots::node_bytes(m), roots::node_bytes(n));
        parse::lemma_emb_read_back(em, bytes::be32(m.domain));
        parse::lemma_emb_read_back(en, bytes::be32(n.domain));
        let nothing = Seq::<u8>::empty();
        assert(bytes::be32(m.domain) + nothing =~= bytes::be32(m.domain));
        assert(bytes::be32(n.domain) + nothing =~= bytes::be32(n.domain));
        bytes::lemma_be32_word32(m.domain, nothing);
        bytes::lemma_be32_word32(n.domain, nothing);
    }
}

/// The leaf of a validator tells the validator.
proof fn lemma_validator_leaf_tells(v: Validator, w: Validator)
    ensures
        validator::validator_leaf(v).len() == 48,
        validator::validator_leaf(v) == validator::validator_leaf(w) ==> v == w,
{
    broadcast use bytes::lemma_be64_len;

    if validator::validator_leaf(v) == validator::validator_leaf(w) {
        let (x, y) = (bytes::be64(v.power), bytes::be64(w.power));
        codec::lemma_regroup(bytes::be64(v.id), v.pubkey@, x);
        codec::lemma_regroup(bytes::be64(w.id), w.pubkey@, y);
        parse::lemma_cut_word(v.id, w.id, v.pubkey@ + x, w.pubkey@ + y);
        parse::lemma_array_read_back(v.pubkey, x);
        parse::lemma_array_read_back(w.pubkey, y);
        let nothing = Seq::<u8>::empty();
        assert(x + nothing =~= x);
        assert(y + nothing =~= y);
        parse::lemma_cut_word(v.power, w.power, nothing, nothing);
    }
}

/// Lists of accounts with equal leaves are equal.
proof fn lemma_same_accounts(a: StateView, b: StateView)
    requires
        a.accounts.dom().finite(),
        b.accounts.dom().finite(),
        roots::account_ids(a).len() == roots::account_ids(b).len(),
        forall|i: int|
            0 <= i < roots::account_ids(a).len() ==> roots::account_writer(a)(
                #[trigger] roots::account_ids(a)[i],
            ) == roots::account_writer(b)(roots::account_ids(b)[i]),
    ensures
        a.accounts == b.accounts,
{
    let (ia, ib) = (roots::account_ids(a), roots::account_ids(b));
    ordered::lemma_has_listing(a.accounts.dom());
    ordered::lemma_has_listing(b.accounts.dom());
    assert forall|i: int| 0 <= i < ia.len() implies #[trigger] ia[i] == ib[i]
        && a.accounts[ia[i]] == b.accounts[ib[i]] by {
        lemma_account_leaf_tells(ia[i], a.accounts[ia[i]], ib[i], b.accounts[ib[i]]);
    }
    assert(ia =~= ib);
    assert forall|id: u64| a.accounts.contains_key(id) <==> b.accounts.contains_key(id) by {
        assert(ia.contains(id) <==> a.accounts.dom().contains(id));
        assert(ib.contains(id) <==> b.accounts.dom().contains(id));
    }
    assert forall|id: u64| #[trigger] a.accounts.contains_key(id) implies a.accounts[id]
        == b.accounts[id] by {
        assert(ia.contains(id));
        let i = choose|i: int| 0 <= i < ia.len() && ia[i] == id;
        assert(ia[i] == ib[i]);
    }
    assert(a.accounts =~= b.accounts);
}

/// Lists of reputations with equal leaves are equal up to their NaNs.
proof fn lemma_same_standings(a: StateView, b: StateView)
    requires
        a.reviewers.dom().finite(),
        b.reviewers.dom().finite(),
        roots::standing_ids(a).len() == roots::standing_ids(b).len(),
        forall|i: int|
            0 <= i < roots::standing_ids(a).len() ==> roots::standing_writer(a)(
                #[trigger] roots::standing_ids(a)[i],
            ) == roots::standing_writer(b)(roots::standing_ids(b)[i]),
    ensures
        same_standings(a, b),
{
    let (ia, ib) = (roots::standing_ids(a), roots::standing_ids(b));
    ordered::lemma_has_listing(a.reviewers.dom());
    ordered::lemma_has_listing(b.reviewers.dom());
    assert forall|i: int| 0 <= i < ia.len() implies #[trigger] ia[i] == ib[i] && ieee::canonical(
        a.reviewers[ia[i]],
    ) == ieee::canonical(b.reviewers[ib[i]]) by {
        lemma_standing_leaf_tells(ia[i], a.reviewers[ia[i]], ib[i], b.reviewers[ib[i]]);
    }
    assert(ia =~= ib);
    assert(a.reviewers.dom() =~= b.reviewers.dom()) by {
        assert forall|id: u64| a.reviewers.dom().contains(id) <==> b.reviewers.dom().contains(
            id,
        ) by {
            assert(ia.contains(id) <==> a.reviewers.dom().contains(id));
            assert(ib.contains(id) <==> b.reviewers.dom().contains(id));
        }
    }
    assert forall|id: u64| #[trigger] a.reviewers.contains_key(id) implies ieee::canonical(
        a.reviewers[id],
    ) == ieee::canonical(b.reviewers[id]) by {
        assert(ia.contains(id));
        let i = choose|i: int| 0 <= i < ia.len() && ia[i] == id;
        assert(ia[i] == ib[i]);
    }
}

pub proof fn lemma_regroup_ten(
    a: Seq<u8>,
    b: Seq<u8>,
    c: Seq<u8>,
    d: Seq<u8>,
    e: Seq<u8>,
    f: Seq<u8>,
    g: Seq<u8>,
    h: Seq<u8>,
    i: Seq<u8>,
    j: Seq<u8>,
)
    ensures
        a + b + c + d + e + f + g + h + i + j == a + (b + (c + (d + (e + (f + (g + (h + (i
            + j)))))))),
{
    broadcast use codec::lemma_regroup;

}

// --- laws ---------------------------------------------------------------------

/// The state digest commits to the state: two states with one digest have the same
/// height, totals, accounts, rules and validators, and the same reputations, knowledge
/// and time up to their NaNs, unless what was hashed of them collides.
pub proof fn law_the_digest_commits_to_the_state(a: StateView, b: StateView)
    requires
        countable(a),
        countable(b),
        roots::digest_of(a) == roots::digest_of(b),
    ensures
        merkle::collide(roots::state_bytes(a), roots::state_bytes(b)) || {
            &&& a.height == b.height
            &&& a.supply == b.supply
            &&& a.treasury == b.treasury
            &&& a.accounts == b.accounts
            &&& same_standings(a, b)
            &&& same_graphs(a, b)
            &&& a.base_emission_micro == b.base_emission_micro
            &&& a.slash_bps == b.slash_bps
            &&& ieee::canonical(a.now_days) == ieee::canonical(b.now_days)
            &&& a.validators == b.validators
        },
{
    if roots::state_bytes(a) == roots::state_bytes(b) {
        let (ia, ib) = (roots::account_ids(a), roots::account_ids(b));
        let (sa, sb) = (roots::standing_ids(a), roots::standing_ids(b));
        let accounts_a = parse::joined(ia, roots::account_writer(a));
        let accounts_b = parse::joined(ib, roots::account_writer(b));
        let standings_a = parse::joined(sa, roots::standing_writer(a));
        let standings_b = parse::joined(sb, roots::standing_writer(b));
        let nodes_a = parse::joined(a.graph, roots::node_writer());
        let nodes_b = parse::joined(b.graph, roots::node_writer());
        let (end_a, end_b) = (roots::setting_bytes(a), roots::setting_bytes(b));
        let tail_a = bytes::be64(a.graph.len() as u64) + (nodes_a + end_a);
        let tail_b = bytes::be64(b.graph.len() as u64) + (nodes_b + end_b);
        let late_a = bytes::be64(sa.len() as u64) + (standings_a + tail_a);
        let late_b = bytes::be64(sb.len() as u64) + (standings_b + tail_b);
        let mid_a = bytes::be64(ia.len() as u64) + (accounts_a + late_a);
        let mid_b = bytes::be64(ib.len() as u64) + (accounts_b + late_b);
        lemma_regroup_ten(
            bytes::be64(a.height),
            bytes::be64(a.supply),
            bytes::be64(a.treasury),
            bytes::be64(ia.len() as u64),
            accounts_a,
            bytes::be64(sa.len() as u64),
            standings_a,
            bytes::be64(a.graph.len() as u64),
            nodes_a,
            end_a,
        );
        lemma_regroup_ten(
            bytes::be64(b.height),
            bytes::be64(b.supply),
            bytes::be64(b.treasury),
            bytes::be64(ib.len() as u64),
            accounts_b,
            bytes::be64(sb.len() as u64),
            standings_b,
            bytes::be64(b.graph.len() as u64),
            nodes_b,
            end_b,
        );
        let early_a = bytes::be64(a.treasury) + mid_a;
        let early_b = bytes::be64(b.treasury) + mid_b;
        parse::lemma_cut_word(
            a.height,
            b.height,
            bytes::be64(a.supply) + early_a,
            bytes::be64(b.supply) + early_b,
        );
        parse::lemma_cut_word(a.supply, b.supply, early_a, early_b);
        parse::lemma_cut_word(a.treasury, b.treasury, mid_a, mid_b);
        parse::lemma_cut_word(
            ia.len() as u64,
            ib.len() as u64,
            accounts_a + late_a,
            accounts_b + late_b,
        );
        lemma_account_widths(a);
        lemma_account_widths(b);
        parse::lemma_cut_list(
            ia,
            ib,
            roots::account_writer(a),
            roots::account_writer(b),
            88,
            late_a,
            late_b,
        );
        lemma_same_accounts(a, b);
        parse::lemma_cut_word(
            sa.len() as u64,
            sb.len() as u64,
            standings_a + tail_a,
            standings_b + tail_b,
        );
        lemma_standing_widths(a);
        lemma_standing_widths(b);
        parse::lemma_cut_list(
            sa,
            sb,
            roots::standing_writer(a),
            roots::standing_writer(b),
            12,
            tail_a,
            tail_b,
        );
        lemma_same_standings(a, b);
        parse::lemma_cut_word(
            a.graph.len() as u64,
            b.graph.len() as u64,
            nodes_a + end_a,
            nodes_b + end_b,
        );
        lemma_same_nodes(a, b, end_a, end_b);
        lemma_same_settings(a, b);
    }
}

proof fn lemma_account_widths(st: StateView)
    ensures
        forall|i: int|
            0 <= i < roots::account_ids(st).len() ==> roots::account_writer(st)(
                #[trigger] roots::account_ids(st)[i],
            ).len() == 88,
{
    let ids = roots::account_ids(st);
    assert forall|i: int| 0 <= i < ids.len() implies roots::account_writer(st)(
        #[trigger] ids[i],
    ).len() == 88 by {
        lemma_account_leaf_tells(ids[i], st.accounts[ids[i]], 0, st.accounts[ids[i]]);
    }
}

proof fn lemma_standing_widths(st: StateView)
    ensures
        forall|i: int|
            0 <= i < roots::standing_ids(st).len() ==> roots::standing_writer(st)(
                #[trigger] roots::standing_ids(st)[i],
            ).len() == 12,
{
    let ids = roots::standing_ids(st);
    assert forall|i: int| 0 <= i < ids.len() implies roots::standing_writer(st)(
        #[trigger] ids[i],
    ).len() == 12 by {
        lemma_standing_leaf_tells(ids[i], st.reviewers[ids[i]], 0, 0);
    }
}

proof fn lemma_same_nodes(a: StateView, b: StateView, ra: Seq<u8>, rb: Seq<u8>)
    requires
        a.graph.len() == b.graph.len(),
        parse::joined(a.graph, roots::node_writer()) + ra == parse::joined(
            b.graph,
            roots::node_writer(),
        ) + rb,
    ensures
        same_graphs(a, b),
        ra == rb,
{
    let w = roots::node_writer();
    if a.graph.len() == 0 {
        parse::lemma_cut_list(a.graph, b.graph, w, w, 0, ra, rb);
    } else {
        let width = roots::graph_leaf(a.graph[0]).len();
        assert forall|i: int| 0 <= i < a.graph.len() implies w(#[trigger] a.graph[i]).len()
            == width by {
            lemma_graph_leaf_tells(a.graph[i], a.graph[0]);
        }
        assert forall|i: int| 0 <= i < b.graph.len() implies w(#[trigger] b.graph[i]).len()
            == width by {
            lemma_graph_leaf_tells(b.graph[i], a.graph[0]);
        }
        parse::lemma_cut_list(a.graph, b.graph, w, w, width, ra, rb);
        assert forall|i: int| 0 <= i < a.graph.len() implies same_knowledge(
            #[trigger] a.graph[i],
            b.graph[i],
        ) by {
            assert(w(a.graph[i]) == w(b.graph[i]));
            lemma_graph_leaf_tells(a.graph[i], b.graph[i]);
        }
    }
}

/// The same bytes of rules, time and validators tell the same of each.
proof fn lemma_same_settings(a: StateView, b: StateView)
    requires
        countable(a),
        countable(b),
        roots::setting_bytes(a) == roots::setting_bytes(b),
    ensures
        a.base_emission_micro == b.base_emission_micro,
        a.slash_bps == b.slash_bps,
        ieee::canonical(a.now_days) == ieee::canonical(b.now_days),
        a.validators == b.validators,
{
    broadcast use codec::lemma_regroup;

    let w = roots::validator_writer();
    let nothing = Seq::<u8>::empty();
    let (ta, tb) = (ieee::canonical(a.now_days), ieee::canonical(b.now_days));
    let (la, lb) = (parse::joined(a.validators, w), parse::joined(b.validators, w));
    let a3 = bytes::be64(a.validators.len() as u64) + la;
    let b3 = bytes::be64(b.validators.len() as u64) + lb;
    let (a2, b2) = (bytes::be32(ta) + a3, bytes::be32(tb) + b3);
    let (a1, b1) = (bytes::be32(a.slash_bps) + a2, bytes::be32(b.slash_bps) + b2);
    parse::lemma_cut_word(a.base_emission_micro, b.base_emission_micro, a1, b1);
    bytes::lemma_be32_word32(a.slash_bps, a2);
    bytes::lemma_be32_word32(b.slash_bps, b2);
    bytes::lemma_be32_word32(ta, a3);
    bytes::lemma_be32_word32(tb, b3);
    parse::lemma_cut_word(a.validators.len() as u64, b.validators.len() as u64, la, lb);
    assert forall|i: int| 0 <= i < a.validators.len() implies w(#[trigger] a.validators[i]).len()
        == 48 by {
        lemma_validator_leaf_tells(a.validators[i], a.validators[i]);
    }
    assert forall|i: int| 0 <= i < b.validators.len() implies w(#[trigger] b.validators[i]).len()
        == 48 by {
        lemma_validator_leaf_tells(b.validators[i], b.validators[i]);
    }
    assert(la + nothing =~= la);
    assert(lb + nothing =~= lb);
    parse::lemma_cut_list(a.validators, b.validators, w, w, 48, nothing, nothing);
    assert forall|i: int| 0 <= i < a.validators.len() implies a.validators[i]
        == b.validators[i] by {
        assert(w(a.validators[i]) == w(b.validators[i]));
        lemma_validator_leaf_tells(a.validators[i], b.validators[i]);
    }
    assert(a.validators =~= b.validators);
}

/// The contents of all leaves of a state's Merkle tree.
pub open spec fn leaf_contents(st: StateView) -> Seq<Seq<u8>> {
    roots::account_ids(st).map_values(|id: u64| roots::account_leaf(id, st.accounts[id]))
        + roots::standing_ids(st).map_values(
        |id: u64| roots::standing_leaf(id, st.reviewers[id]),
    ) + st.graph.map_values(|n: GraphNode| roots::graph_leaf(n))
}

/// Whether leaves in the same place of two trees collide.
pub open spec fn leaves_collide(a: StateView, b: StateView) -> bool {
    exists|i: int|
        0 <= i < leaf_contents(a).len() && merkle::collide(
            seq![merkle::LEAF_PREFIX] + (#[trigger] leaf_contents(a)[i]),
            seq![merkle::LEAF_PREFIX] + leaf_contents(b)[i],
        )
}

/// The Merkle root commits to the entries: two states with equally many entries of
/// each kind and one root have the same accounts, and the same reputations and
/// knowledge up to their NaNs, unless messages that are hashed in their trees
/// collide.
pub proof fn law_the_merkle_root_commits_to_the_entries(a: StateView, b: StateView)
    requires
        a.accounts.dom().finite(),
        b.accounts.dom().finite(),
        a.reviewers.dom().finite(),
        b.reviewers.dom().finite(),
        roots::account_ids(a).len() == roots::account_ids(b).len(),
        roots::standing_ids(a).len() == roots::standing_ids(b).len(),
        a.graph.len() == b.graph.len(),
        roots::root_of(a) == roots::root_of(b),
    ensures
        merkle::tree_collides(roots::leaf_digests(a), roots::leaf_digests(b)) || leaves_collide(
            a,
            b,
        ) || {
            &&& a.accounts == b.accounts
            &&& same_standings(a, b)
            &&& same_graphs(a, b)
        },
{
    let (da, db) = (roots::leaf_digests(a), roots::leaf_digests(b));
    let (ca, cb) = (leaf_contents(a), leaf_contents(b));
    if da != db {
        merkle::law_a_root_commits_to_its_leaves(da, db);
    } else if !leaves_collide(a, b) {
        let (ia, ib) = (roots::account_ids(a), roots::account_ids(b));
        let (sa, sb) = (roots::standing_ids(a), roots::standing_ids(b));
        lemma_contents_of_digests(a);
        lemma_contents_of_digests(b);
        assert forall|i: int| 0 <= i < ca.len() implies #[trigger] ca[i] == cb[i] by {
            let x = seq![merkle::LEAF_PREFIX] + ca[i];
            let y = seq![merkle::LEAF_PREFIX] + cb[i];
            assert(da[i] == db[i]);
            assert(merkle::leaf_digest(ca[i]) == merkle::leaf_digest(cb[i]));
            assert(x.skip(1) =~= ca[i]);
            assert(y.skip(1) =~= cb[i]);
            assert(!merkle::collide(x, y));
        }
        assert forall|i: int| 0 <= i < ia.len() implies roots::account_writer(a)(#[trigger] ia[i])
            == roots::account_writer(b)(ib[i]) by {
            assert(ca[i] == cb[i]);
        }
        lemma_same_accounts(a, b);
        assert forall|i: int| 0 <= i < sa.len() implies roots::standing_writer(a)(
            #[trigger] sa[i],
        ) == roots::standing_writer(b)(sb[i]) by {
            assert(ca[ia.len() + i] == cb[ib.len() + i]);
        }
        lemma_same_standings(a, b);
        assert forall|i: int| 0 <= i < a.graph.len() implies same_knowledge(
            #[trigger] a.graph[i],
            b.graph[i],
        ) by {
            let k = ia.len() + sa.len() + i;
            assert(ca[k] == cb[k]);
            let (m, n) = (a.graph[i], b.graph[i]);
            lemma_graph_leaf_tells(m, n);
        }
    }
}

proof fn lemma_contents_of_digests(st: StateView)
    ensures
        leaf_contents(st).len() == roots::leaf_digests(st).len(),
        leaf_contents(st).len() == roots::account_ids(st).len() + roots::standing_ids(st).len()
            + st.graph.len(),
        forall|i: int|
            0 <= i < leaf_contents(st).len() ==> roots::leaf_digests(st)[i] == merkle::leaf_digest(
                #[trigger] leaf_contents(st)[i],
            ),
{
}

} // verus!
