//! Commitments to the state: a digest of all of it, and a Merkle root whose leaves
//! can be opened one at a time.

use vstd::prelude::*;

use crate::bytes;
use crate::codec;
use crate::codec::Enc;
use crate::graph::GraphNode;
use crate::hash;
use crate::hash::sha256;
use crate::ieee;
use crate::merkle;
use crate::merkle::{leaf_hash, MerkleTree, Proof, Step};
use crate::ordered;
use crate::ordered::sorted_keys;
use crate::parse;
use crate::state::{Account, ChainState, StateView};
use crate::validator;
use crate::validator::Validator;
use crate::Digest;

verus! {

// --- leaves -------------------------------------------------------------------

/// The bytes that commit to an account.
pub open spec fn account_leaf(id: u64, a: Account) -> Seq<u8> {
    bytes::be64(id) + a.pubkey@ + bytes::be64(a.balance) + bytes::be64(a.staked_total)
        + bytes::be64(a.earned_total) + bytes::be64(a.slashed_total) + bytes::be64(a.submissions)
        + bytes::be64(a.accepted)
}

/// The bytes that commit to a reputation.
pub open spec fn standing_leaf(id: u64, reputation: u32) -> Seq<u8> {
    bytes::be64(id) + bytes::be32(ieee::canonical(reputation))
}

/// The bytes of the knowledge in a graph node.
pub open spec fn node_bytes(n: GraphNode) -> Seq<u8> {
    parse::emb_bytes(parse::canonical_emb(n.embedding)) + bytes::be32(n.domain)
}

/// The bytes that commit to a graph node.
pub open spec fn graph_leaf(n: GraphNode) -> Seq<u8> {
    bytes::be64(n.node_id) + node_bytes(n)
}

impl Account {
    /// The leaf contents that commit to this account under `id`: what a light client
    /// hashes to check an inclusion proof.
    pub fn merkle_leaf(&self, id: u64) -> (r: Vec<u8>)
        ensures
            r@ == account_leaf(id, *self),
    {
        let mut e = Enc::new();
        e.u64(id);
        e.raw(self.pubkey.as_slice());
        e.u64(self.balance);
        e.u64(self.staked_total);
        e.u64(self.earned_total);
        e.u64(self.slashed_total);
        e.u64(self.submissions);
        e.u64(self.accepted);
        proof {
            let nothing = Seq::<u8>::empty();
            assert(nothing + bytes::be64(id) =~= bytes::be64(id));
        }
        e.0
    }
}

/// Someone who may score submissions, with the bits of their reputation.
#[derive(Clone, Copy, Debug, PartialEq, Eq)]
pub struct Reviewer {
    pub id: u64,
    pub reputation: u32,
}

impl Reviewer {
    /// The leaf contents that commit to this reputation.
    pub fn merkle_leaf(&self) -> (r: Vec<u8>)
        ensures
            r@ == standing_leaf(self.id, self.reputation),
    {
        let mut e = Enc::new();
        e.u64(self.id);
        e.binary32(self.reputation);
        assert(e@ =~= standing_leaf(self.id, self.reputation));
        e.0
    }
}

impl GraphNode {
    /// The leaf contents that commit to this node.
    pub fn merkle_leaf(&self) -> (r: Vec<u8>)
        ensures
            r@ == graph_leaf(*self),
    {
        let mut e = Enc::new();
        e.u64(self.node_id);
        e.emb(&self.embedding);
        e.u32(self.domain);
        assert(e@ =~= graph_leaf(*self));
        e.0
    }
}

// --- the digest of the whole state --------------------------------------------

pub open spec fn account_writer(st: StateView) -> spec_fn(u64) -> Seq<u8> {
    |id: u64| account_leaf(id, st.accounts[id])
}

pub open spec fn standing_writer(st: StateView) -> spec_fn(u64) -> Seq<u8> {
    |id: u64| standing_leaf(id, st.reviewers[id])
}

pub open spec fn node_writer() -> spec_fn(GraphNode) -> Seq<u8> {
    |n: GraphNode| graph_leaf(n)
}

pub open spec fn validator_writer() -> spec_fn(Validator) -> Seq<u8> {
    |v: Validator| validator::validator_leaf(v)
}

/// The ids of all accounts, in order.
pub open spec fn account_ids(st: StateView) -> Seq<u64> {
    ordered::in_order(st.accounts.dom())
}

/// The ids of all who may score submissions, in order.
pub open spec fn standing_ids(st: StateView) -> Seq<u64> {
    ordered::in_order(st.reviewers.dom())
}

/// The bytes of the totals and the entries of a state.
pub open spec fn entry_bytes(st: StateView) -> Seq<u8> {
    bytes::be64(st.height) + bytes::be64(st.supply) + bytes::be64(st.treasury) + bytes::be64(
        account_ids(st).len() as u64,
    ) + parse::joined(account_ids(st), account_writer(st)) + bytes::be64(
        standing_ids(st).len() as u64,
    ) + parse::joined(standing_ids(st), standing_writer(st)) + bytes::be64(st.graph.len() as u64)
        + parse::joined(st.graph, node_writer())
}

/// The bytes of the rules, the time and the validators of a state.
pub open spec fn setting_bytes(st: StateView) -> Seq<u8> {
    bytes::be64(st.base_emission_micro) + bytes::be32(st.slash_bps) + bytes::be32(
        ieee::canonical(st.now_days),
    ) + bytes::be64(st.validators.len() as u64) + parse::joined(st.validators, validator_writer())
}

/// The bytes that the state digest is taken of.
pub open spec fn state_bytes(st: StateView) -> Seq<u8> {
    entry_bytes(st) + setting_bytes(st)
}

/// The digest of the whole state.
pub open spec fn digest_of(st: StateView) -> Digest {
    hash::hash_of(state_bytes(st))
}

// --- the Merkle root ----------------------------------------------------------

/// The leaf hashes: all accounts, then all reputations, both in order of id, then
/// the graph nodes in order of insertion.
pub open spec fn leaf_digests(st: StateView) -> Seq<Digest> {
    account_ids(st).map_values(|id: u64| merkle::leaf_digest(account_leaf(id, st.accounts[id])))
        + standing_ids(st).map_values(
        |id: u64| merkle::leaf_digest(standing_leaf(id, st.reviewers[id])),
    ) + st.graph.map_values(|n: GraphNode| merkle::leaf_digest(graph_leaf(n)))
}

/// The Merkle commitment to the state.
pub open spec fn root_of(st: StateView) -> Digest {
    merkle::root_of(leaf_digests(st))
}

/// The position of an id in a list, or the length of the list.
pub open spec fn rank(ids: Seq<u64>, id: u64) -> int
    decreases ids.len(),
{
    if ids.len() == 0 || ids[0] == id {
        0
    } else {
        1 + rank(ids.skip(1), id)
    }
}

/// The path from an account's leaf to the root; none for an unknown id.
pub open spec fn account_path(st: StateView, id: u64) -> Option<Seq<Step>> {
    if st.accounts.contains_key(id) {
        Some(merkle::path_of(leaf_digests(st), rank(account_ids(st), id)))
    } else {
        None
    }
}

/// The path from a reputation's leaf to the root; none for an unknown id.
pub open spec fn standing_path(st: StateView, id: u64) -> Option<Seq<Step>> {
    if st.reviewers.contains_key(id) {
        Some(
            merkle::path_of(
                leaf_digests(st),
                account_ids(st).len() + rank(standing_ids(st), id),
            ),
        )
    } else {
        None
    }
}

/// The path from the leaf of the graph node at `index` to the root; none past the
/// end of the graph.
pub open spec fn graph_path(st: StateView, index: int) -> Option<Seq<Step>> {
    if 0 <= index < st.graph.len() {
        Some(
            merkle::path_of(
                leaf_digests(st),
                account_ids(st).len() + standing_ids(st).len() + index,
            ),
        )
    } else {
        None
    }
}

proof fn lemma_rank(ids: Seq<u64>, id: u64)
    ensures
        0 <= rank(ids, id) <= ids.len(),
        rank(ids, id) < ids.len() ==> ids[rank(ids, id)] == id,
        ids.contains(id) ==> rank(ids, id) < ids.len(),
    decreases ids.len(),
{
    if ids.len() > 0 && ids[0] != id {
        lemma_rank(ids.skip(1), id);
        if ids.contains(id) {
            let i = choose|i: int| 0 <= i < ids.len() && ids[i] == id;
            assert(ids.skip(1)[i - 1] == id);
        }
    }
}

/// An account's path leads from its leaf to the Merkle root of the state.
pub proof fn law_account_path_leads_to_the_root(st: StateView, id: u64)
    requires
        st.accounts.dom().finite(),
        st.accounts.contains_key(id),
    ensures
        merkle::climbed(
            merkle::leaf_digest(account_leaf(id, st.accounts[id])),
            account_path(st, id)->0,
        ) == root_of(st),
{
    ordered::lemma_has_listing(st.accounts.dom());
    lemma_rank(account_ids(st), id);
    assert(account_ids(st).contains(id));
    merkle::law_paths_lead_to_the_root(leaf_digests(st), rank(account_ids(st), id));
}

/// A reputation's path leads from its leaf to the Merkle root of the state.
pub proof fn law_standing_path_leads_to_the_root(st: StateView, id: u64)
    requires
        st.reviewers.dom().finite(),
        st.reviewers.contains_key(id),
    ensures
        merkle::climbed(
            merkle::leaf_digest(standing_leaf(id, st.reviewers[id])),
            standing_path(st, id)->0,
        ) == root_of(st),
{
    ordered::lemma_has_listing(st.reviewers.dom());
    lemma_rank(standing_ids(st), id);
    assert(standing_ids(st).contains(id));
    merkle::law_paths_lead_to_the_root(
        leaf_digests(st),
        account_ids(st).len() + rank(standing_ids(st), id),
    );
}

/// A graph node's path leads from its leaf to the Merkle root of the state.
pub proof fn law_graph_path_leads_to_the_root(st: StateView, index: int)
    requires
        0 <= index < st.graph.len(),
    ensures
        merkle::climbed(
            merkle::leaf_digest(graph_leaf(st.graph[index])),
            graph_path(st, index)->0,
        ) == root_of(st),
{
    merkle::law_paths_lead_to_the_root(
        leaf_digests(st),
        account_ids(st).len() + standing_ids(st).len() + index,
    );
}

/// The leaf of an account gives the account back.
pub proof fn lemma_account_leaf_injective(id: u64, a: Account, b: Account)
    requires
        account_leaf(id, a) == account_leaf(id, b),
    ensures
        a == b,
{
    broadcast use codec::lemma_regroup;

    let rest_a = account_rest(a);
    let rest_b = account_rest(b);
    bytes::lemma_be64_word64(id, a.pubkey@ + rest_a);
    bytes::lemma_be64_word64(id, b.pubkey@ + rest_b);
    parse::lemma_array_read_back(a.pubkey, rest_a);
    parse::lemma_array_read_back(b.pubkey, rest_b);
    lemma_account_rest_injective(a, b);
}

spec fn account_rest(a: Account) -> Seq<u8> {
    bytes::be64(a.balance) + (bytes::be64(a.staked_total) + (bytes::be64(a.earned_total) + (
    bytes::be64(a.slashed_total) + (bytes::be64(a.submissions) + bytes::be64(a.accepted)))))
}

proof fn lemma_account_rest_injective(a: Account, b: Account)
    requires
        account_rest(a) == account_rest(b),
    ensures
        a.balance == b.balance,
        a.staked_total == b.staked_total,
        a.earned_total == b.earned_total,
        a.slashed_total == b.slashed_total,
        a.submissions == b.submissions,
        a.accepted == b.accepted,
{
    let nothing = Seq::<u8>::empty();
    let a5 = bytes::be64(a.accepted);
    let a4 = bytes::be64(a.submissions) + a5;
    let a3 = bytes::be64(a.slashed_total) + a4;
    let a2 = bytes::be64(a.earned_total) + a3;
    let a1 = bytes::be64(a.staked_total) + a2;
    let b5 = bytes::be64(b.accepted);
    let b4 = bytes::be64(b.submissions) + b5;
    let b3 = bytes::be64(b.slashed_total) + b4;
    let b2 = bytes::be64(b.earned_total) + b3;
    let b1 = bytes::be64(b.staked_total) + b2;
    bytes::lemma_be64_word64(a.balance, a1);
    bytes::lemma_be64_word64(b.balance, b1);
    bytes::lemma_be64_word64(a.staked_total, a2);
    bytes::lemma_be64_word64(b.staked_total, b2);
    bytes::lemma_be64_word64(a.earned_total, a3);
    bytes::lemma_be64_word64(b.earned_total, b3);
    bytes::lemma_be64_word64(a.slashed_total, a4);
    bytes::lemma_be64_word64(b.slashed_total, b4);
    bytes::lemma_be64_word64(a.submissions, a5);
    bytes::lemma_be64_word64(b.submissions, b5);
    assert(a5 + nothing =~= a5);
    assert(b5 + nothing =~= b5);
    bytes::lemma_be64_word64(a.accepted, nothing);
    bytes::lemma_be64_word64(b.accepted, nothing);
}

/// A path that opens a root to one account under an id opens it to another only if
/// messages that are hashed on the way collide.
pub proof fn law_a_lying_account_fails(id: u64, a: Account, b: Account, steps: Seq<Step>)
    requires
        a != b,
        merkle::climbed(merkle::leaf_digest(account_leaf(id, a)), steps) == merkle::climbed(
            merkle::leaf_digest(account_leaf(id, b)),
            steps,
        ),
    ensures
        merkle::opening_collides(account_leaf(id, a), account_leaf(id, b), steps),
{
    if account_leaf(id, a) == account_leaf(id, b) {
        lemma_account_leaf_injective(id, a, b);
    }
    merkle::law_a_proof_opens_one_leaf(account_leaf(id, a), account_leaf(id, b), steps);
}

fn position(ids: &Vec<u64>, id: u64) -> (r: usize)
    ensures
        r == rank(ids@, id),
{
    let mut i: usize = 0;
    assert(ids@.skip(0) =~= ids@);
    while i < ids.len()
        invariant
            i <= ids.len(),
            i + rank(ids@.skip(i as int), id) == rank(ids@, id),
        decreases ids.len() - i,
    {
        assert(ids@.skip(i as int).skip(1) =~= ids@.skip(i + 1));
        if ids[i] == id {
            return i;
        }
        i += 1;
    }
    i
}

impl ChainState {
    /// The digest of the whole state.
    pub fn state_root(&self) -> (r: Digest)
        ensures
            r == digest_of(self@),
    {
        let mut e = Enc::new();
        e.u64(self.height);
        e.u64(self.supply);
        e.u64(self.treasury);
        let ids = sorted_keys(&self.accounts);
        e.u64(ids.len() as u64);
        proof {
            let nothing = Seq::<u8>::empty();
            assert(nothing + bytes::be64(self@.height) =~= bytes::be64(self@.height));
        }
        self.write_accounts(&mut e, &ids);
        let ids = sorted_keys(&self.reviewers);
        e.u64(ids.len() as u64);
        self.write_standings(&mut e, &ids);
        e.u64(self.graph.len() as u64);
        self.write_nodes(&mut e);
        let ghost entries = e@;
        assert(entries == entry_bytes(self@));
        e.u64(self.base_emission_micro);
        e.u32(self.slash_bps);
        e.binary32(self.now_days);
        e.u64(self.validators.validators().len() as u64);
        self.write_validators(&mut e);
        proof {
            codec::lemma_regroup_five(
                entries,
                bytes::be64(self@.base_emission_micro),
                bytes::be32(self@.slash_bps),
                bytes::be32(ieee::canonical(self@.now_days)),
                bytes::be64(self@.validators.len() as u64),
                parse::joined(self@.validators, validator_writer()),
            );
            assert(e@ =~= state_bytes(self@));
        }
        sha256(e.0.as_slice())
    }

    fn write_accounts(&self, e: &mut Enc, ids: &Vec<u64>)
        requires
            ordered::lists(ids@, self@.accounts.dom()),
        ensures
            final(e)@ == old(e)@ + parse::joined(ids@, account_writer(self@)),
    {
        let ghost w = account_writer(self@);
        let mut i: usize = 0;
        assert(old(e)@ + parse::joined(ids@.take(0), w) =~= old(e)@);
        while i < ids.len()
            invariant
                i <= ids.len(),
                w == account_writer(self@),
                ordered::lists(ids@, self@.accounts.dom()),
                e@ == old(e)@ + parse::joined(ids@.take(i as int), w),
            decreases ids.len() - i,
        {
            proof {
                assert(ids@.contains(ids@[i as int]));
                parse::lemma_joined_take(ids@, i as int, w);
                codec::lemma_regroup(
                    old(e)@,
                    parse::joined(ids@.take(i as int), w),
                    w(ids@[i as int]),
                );
            }
            match self.accounts.get(&ids[i]) {
                Some(a) => {
                    let leaf = a.merkle_leaf(ids[i]);
                    e.raw(leaf.as_slice());
                },
                None => {
                    assert(false);
                },
            }
            i += 1;
        }
        assert(ids@.take(i as int) =~= ids@);
    }

    fn write_standings(&self, e: &mut Enc, ids: &Vec<u64>)
        requires
            ordered::lists(ids@, self@.reviewers.dom()),
        ensures
            final(e)@ == old(e)@ + parse::joined(ids@, standing_writer(self@)),
    {
        let ghost w = standing_writer(self@);
        let mut i: usize = 0;
        assert(old(e)@ + parse::joined(ids@.take(0), w) =~= old(e)@);
        while i < ids.len()
            invariant
                i <= ids.len(),
                w == standing_writer(self@),
                ordered::lists(ids@, self@.reviewers.dom()),
                e@ == old(e)@ + parse::joined(ids@.take(i as int), w),
            decreases ids.len() - i,
        {
            proof {
                assert(ids@.contains(ids@[i as int]));
                parse::lemma_joined_take(ids@, i as int, w);
                codec::lemma_regroup(
                    old(e)@,
                    parse::joined(ids@.take(i as int), w),
                    w(ids@[i as int]),
                );
            }
            match self.reviewers.get(&ids[i]) {
                Some(rep) => {
                    let leaf = Reviewer { id: ids[i], reputation: *rep }.merkle_leaf();
                    e.raw(leaf.as_slice());
                },
                None => {
                    assert(false);
                },
            }
            i += 1;
        }
        assert(ids@.take(i as int) =~= ids@);
    }

    fn write_nodes(&self, e: &mut Enc)
        ensures
            final(e)@ == old(e)@ + parse::joined(self@.graph, node_writer()),
    {
        let ghost w = node_writer();
        let ghost nodes = self@.graph;
        let mut i: usize = 0;
        assert(old(e)@ + parse::joined(nodes.take(0), w) =~= old(e)@);
        while i < self.graph.nodes.len()
            invariant
                i <= self.graph.nodes.len(),
                w == node_writer(),
                nodes == self@.graph,
                e@ == old(e)@ + parse::joined(nodes.take(i as int), w),
            decreases self.graph.nodes.len() - i,
        {
            proof {
                parse::lemma_joined_take(nodes, i as int, w);
            }
            let leaf = self.graph.nodes[i].merkle_leaf();
            e.raw(leaf.as_slice());
            proof {
                codec::lemma_regroup(
                    old(e)@,
                    parse::joined(nodes.take(i as int), w),
                    w(nodes[i as int]),
                );
            }
            i += 1;
        }
        assert(nodes.take(i as int) =~= nodes);
    }

    fn write_validators(&self, e: &mut Enc)
        ensures
            final(e)@ == old(e)@ + parse::joined(self@.validators, validator_writer()),
    {
        let ghost w = validator_writer();
        let all = self.validators.validators();
        let mut i: usize = 0;
        assert(old(e)@ + parse::joined(all@.take(0), w) =~= old(e)@);
        while i < all.len()
            invariant
                i <= all.len(),
                w == validator_writer(),
                all@ == self@.validators,
                e@ == old(e)@ + parse::joined(all@.take(i as int), w),
            decreases all.len() - i,
        {
            proof {
                parse::lemma_joined_take(all@, i as int, w);
                codec::lemma_regroup(
                    old(e)@,
                    parse::joined(all@.take(i as int), w),
                    w(all@[i as int]),
                );
            }
            let leaf = all[i].merkle_leaf();
            e.raw(leaf.as_slice());
            i += 1;
        }
        assert(all@.take(i as int) =~= all@);
    }

    fn merkle_leaves(&self) -> (r: Vec<Digest>)
        ensures
            r@ == leaf_digests(self@),
    {
        let mut leaves: Vec<Digest> = Vec::new();
        let ghost all = leaf_digests(self@);
        let ids = sorted_keys(&self.accounts);
        let mut i: usize = 0;
        while i < ids.len()
            invariant
                i <= ids.len(),
                all == leaf_digests(self@),
                ids@ == account_ids(self@),
                ordered::lists(ids@, self@.accounts.dom()),
                leaves@ == all.take(i as int),
            decreases ids.len() - i,
        {
            assert(ids@.contains(ids@[i as int]));
            match self.accounts.get(&ids[i]) {
                Some(a) => {
                    let leaf = a.merkle_leaf(ids[i]);
                    leaves.push(leaf_hash(leaf.as_slice()));
                },
                None => {
                    assert(false);
                },
            }
            assert(all.take(i + 1) =~= all.take(i as int).push(all[i as int]));
            i += 1;
        }
        let ghost n = account_ids(self@).len();
        let ids = sorted_keys(&self.reviewers);
        let mut i: usize = 0;
        while i < ids.len()
            invariant
                i <= ids.len(),
                all == leaf_digests(self@),
                n == account_ids(self@).len(),
                ids@ == standing_ids(self@),
                ordered::lists(ids@, self@.reviewers.dom()),
                leaves@ == all.take(n + i),
            decreases ids.len() - i,
        {
            assert(ids@.contains(ids@[i as int]));
            match self.reviewers.get(&ids[i]) {
                Some(rep) => {
                    let leaf = Reviewer { id: ids[i], reputation: *rep }.merkle_leaf();
                    leaves.push(leaf_hash(leaf.as_slice()));
                },
                None => {
                    assert(false);
                },
            }
            assert(all.take(n + i + 1) =~= all.take(n + i).push(all[n + i]));
            i += 1;
        }
        let ghost n = n + standing_ids(self@).len();
        let mut i: usize = 0;
        while i < self.graph.nodes.len()
            invariant
                i <= self.graph.nodes.len(),
                all == leaf_digests(self@),
                n == account_ids(self@).len() + standing_ids(self@).len(),
                leaves@ == all.take(n + i),
            decreases self.graph.nodes.len() - i,
        {
            let leaf = self.graph.nodes[i].merkle_leaf();
            leaves.push(leaf_hash(leaf.as_slice()));
            assert(all.take(n + i + 1) =~= all.take(n + i).push(all[n + i]));
            i += 1;
        }
        assert(all.take(n + i) =~= all);
        leaves
    }

    /// A Merkle commitment to the state, whose leaves can be opened one at a time: a
    /// light client that holds only this root can check any one account, reputation
    /// or graph node it is told.
    pub fn merkle_root(&self) -> (r: Digest)
        ensures
            r == root_of(self@),
    {
        MerkleTree::from_leaf_hashes(self.merkle_leaves()).root()
    }

    /// An inclusion proof for an account; none for an unknown id. It leads from the
    /// account's leaf to [`ChainState::merkle_root`].
    pub fn account_proof(&self, id: u64) -> (r: Option<Proof>)
        ensures
            parse::viewed_option(r) == account_path(self@, id),
            r matches Some(p) ==> merkle::climbed(
                merkle::leaf_digest(account_leaf(id, self@.accounts[id])),
                p@,
            ) == root_of(self@),
    {
        if !self.accounts.contains_key(&id) {
            return None;
        }
        let ids = sorted_keys(&self.accounts);
        let i: usize = position(&ids, id);
        proof {
            law_account_path_leads_to_the_root(self@, id);
            lemma_rank(ids@, id);
            assert(ids@.contains(id));
        }
        MerkleTree::from_leaf_hashes(self.merkle_leaves()).proof_of(i)
    }

    /// An inclusion proof for a reputation; none for an unknown id.
    pub fn reviewer_proof(&self, id: u64) -> (r: Option<Proof>)
        ensures
            parse::viewed_option(r) == standing_path(self@, id),
            r matches Some(p) ==> merkle::climbed(
                merkle::leaf_digest(standing_leaf(id, self@.reviewers[id])),
                p@,
            ) == root_of(self@),
    {
        if !self.reviewers.contains_key(&id) {
            return None;
        }
        let ids = sorted_keys(&self.reviewers);
        let i: usize = position(&ids, id);
        let leaves = self.merkle_leaves();
        let before: usize = leaves.len() - self.graph.len() - ids.len();
        proof {
            law_standing_path_leads_to_the_root(self@, id);
            lemma_rank(ids@, id);
            assert(ids@.contains(id));
        }
        MerkleTree::from_leaf_hashes(leaves).proof_of(before + i)
    }

    /// An inclusion proof for the graph node at `index`; none past the end.
    pub fn graph_node_proof(&self, index: usize) -> (r: Option<Proof>)
        ensures
            parse::viewed_option(r) == graph_path(self@, index as int),
            r matches Some(p) ==> merkle::climbed(
                merkle::leaf_digest(graph_leaf(self@.graph[index as int])),
                p@,
            ) == root_of(self@),
    {
        if index >= self.graph.len() {
            return None;
        }
        let leaves = self.merkle_leaves();
        let before: usize = leaves.len() - self.graph.len();
        proof {
            law_graph_path_leads_to_the_root(self@, index as int);
        }
        MerkleTree::from_leaf_hashes(leaves).proof_of(before + index)
    }
}

} // verus!
