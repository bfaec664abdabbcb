//! What light peers follow, and how a chain grows.
//!
//! The laws below say which headers a tracker follows and why it refuses the others,
//! what a light peer does with each message, and which blocks extend a chain.

use vstd::prelude::*;

use crate::chain;
use crate::chain::ChainView;
use crate::consensus;
use crate::consensus::{CommitView, ConsensusError};
use crate::gossip::MsgView;
use crate::graph::Judge;
use crate::hash;
use crate::ledger;
use crate::light;
use crate::light::{BlockHeader, CertifiedView, EntryView, LightError, ProofKind, TrackerView};
use crate::merkle;
use crate::merkle::Step;
use crate::spv;
use crate::spv::LightView;
use crate::state;
use crate::state::{Account, ChainError, GenesisView, ReceiptView, StateView};
use crate::tx;
use crate::tx::BlockView;
use crate::validator;
use crate::validator::Validator;
use crate::Digest;

verus! {

// --- the tracker --------------------------------------------------------------

/// The next header is followed where its certificate is for it and verifies under the
/// tracked validators, and the next validators have the tracked root. The tracker then
/// stands one higher with those validators, and the power that signed is told.
pub proof fn law_the_next_header_is_followed(
    t: TrackerView,
    h: BlockHeader,
    cert: CommitView,
    next: Seq<Validator>,
    power: u64,
)
    requires
        h.height == t.height + 1,
        cert.height == h.height,
        cert.block_hash == h.block_hash,
        consensus::certified(t.validators, cert) == Ok::<u64, ConsensusError>(power),
        validator::set_root(next) == validator::set_root(t.validators),
    ensures
        light::followed(t, h, cert, next) == Ok::<(TrackerView, u64), LightError>(
            (TrackerView { height: (t.height + 1) as u64, validators: next }, power),
        ),
{
}

/// A header that is not followed is refused for the first of these reasons: it is not
/// the next, its certificate is for another block, its certificate does not verify, or
/// the next validators have another root.
pub proof fn law_refused_headers_name_the_fault(
    t: TrackerView,
    h: BlockHeader,
    cert: CommitView,
    next: Seq<Validator>,
)
    ensures
        ({
            let r = light::followed(t, h, cert, next);
            let is_next = h.height == t.height + 1;
            let matches_block = cert.height == h.height && cert.block_hash == h.block_hash;
            let verified = consensus::certified(t.validators, cert);
            &&& !is_next ==> r == Err::<(TrackerView, u64), LightError>(
                LightError::WrongHeight { reached: t.height, got: h.height },
            )
            &&& is_next && !matches_block ==> r == Err::<(TrackerView, u64), LightError>(
                LightError::CertificateMismatch,
            )
            &&& is_next && matches_block && verified is Err ==> r == Err::<
                (TrackerView, u64),
                LightError,
            >(LightError::BadCertificate(verified->Err_0))
            &&& is_next && matches_block && verified is Ok && validator::set_root(next)
                != validator::set_root(t.validators) ==> r == Err::<(TrackerView, u64), LightError>(
                LightError::ValidatorRootMismatch {
                    expected: validator::set_root(t.validators),
                    found: validator::set_root(next),
                },
            )
        }),
{
}

/// A tracker starts at height zero with the validators of the genesis state.
pub proof fn law_a_tracker_starts_at_genesis(g: GenesisView)
    ensures
        light::genesis_tracker(g).height == 0,
        light::genesis_tracker(g).validators == state::genesis_state(g).validators,
{
}

// --- light peers --------------------------------------------------------------

/// A fresh light peer holds nothing, stands at genesis, and knows the peers it was told
/// of except itself.
pub proof fn law_a_fresh_light_peer(id: u64, g: GenesisView, peers: Seq<u64>, p: u64)
    ensures
        ({
            let n = spv::fresh_light(id, g, peers);
            &&& n.id == id
            &&& n.headers.len() == 0
            &&& n.next_sets.len() == 0
            &&& !(exists|d: Digest| n.seen.contains(d))
            &&& !(exists|k: (ProofKind, u64)| n.proofs.contains_key(k))
            &&& n.tracker.height == 0
            &&& n.peers.contains(p) <==> p != id && peers.contains(p)
        }),
{
}

/// A novel next header that its tracker follows is kept with the validators handed over,
/// and never again taken; the answer is the power that signed it.
pub proof fn law_a_novel_next_header_is_kept(
    n: LightView,
    ch: CertifiedView,
    next: Seq<Validator>,
    other: CertifiedView,
    set: Seq<Validator>,
)
    requires
        !n.seen.contains(ch.header.block_hash),
        light::followed(n.tracker, ch.header, ch.cert, next) is Ok,
        other.header.block_hash == ch.header.block_hash,
    ensures
        ({
            let (after, answer) = spv::given_header(n, ch, next);
            let (tracker, power) = light::followed(n.tracker, ch.header, ch.cert, next)->Ok_0;
            &&& answer == Ok::<u64, LightError>(power)
            &&& after.tracker == tracker
            &&& after.headers == n.headers.push(ch)
            &&& after.next_sets == n.next_sets.push(next)
            &&& after.seen == n.seen.insert(ch.header.block_hash)
            &&& after.id == n.id && after.peers == n.peers && after.proofs == n.proofs
            &&& spv::given_header(after, other, set) == (
                after,
                Ok::<u64, LightError>(after.tracker.height),
            )
        }),
{
}

/// A header that came before, or is not the next, is ignored, and the answer is the
/// height reached; a next one that the tracker refuses is answered with the fault. In
/// both cases nothing changes.
pub proof fn law_other_headers_change_nothing(n: LightView, ch: CertifiedView, next: Seq<Validator>)
    ensures
        n.seen.contains(ch.header.block_hash) || ch.header.height != n.tracker.height + 1
            ==> spv::given_header(n, ch, next) == (n, Ok::<u64, LightError>(n.tracker.height)),
        !n.seen.contains(ch.header.block_hash) && ch.header.height == n.tracker.height + 1 ==> (
        light::followed(n.tracker, ch.header, ch.cert, next) matches Err(e)
            ==> spv::given_header(n, ch, next) == (n, Err::<u64, LightError>(e))),
{
}

/// A light peer asks whoever is taller for the headers above its own height, and leaves
/// others alone.
pub proof fn law_taller_peers_are_asked_for_headers(n: LightView, from: u64, theirs: u64)
    ensures
        ({
            let (after, out) = spv::light_reacted(n, from, MsgView::Status { height: theirs });
            &&& after == (LightView { peers: n.peers.insert(from), ..n })
            &&& theirs > n.tracker.height ==> out == seq![
                (from, MsgView::GetHeaders { from: (n.tracker.height + 1) as u64 }),
            ]
            &&& theirs <= n.tracker.height ==> out.len() == 0
        }),
{
}

/// Headers that come by message are marked, each and no others, and their sender is told
/// the height reached; nothing is followed by them.
pub proof fn law_headers_by_message_are_marked(
    n: LightView,
    from: u64,
    batch: Seq<CertifiedView>,
    d: Digest,
)
    ensures
        ({
            let (after, out) = spv::light_reacted(n, from, MsgView::Headers(batch));
            &&& after == (LightView { peers: n.peers.insert(from), seen: after.seen, ..n })
            &&& after.seen.contains(d) <==> n.seen.contains(d) || exists|i: int|
                0 <= i < batch.len() && (#[trigger] batch[i]).header.block_hash == d
            &&& batch.len() > 0 ==> out == seq![
                (from, MsgView::Status { height: n.tracker.height }),
            ]
            &&& batch.len() == 0 ==> out.len() == 0
        }),
{
    let hashes = batch.map_values(|c: CertifiedView| c.header.block_hash);
    if exists|i: int| 0 <= i < batch.len() && (#[trigger] batch[i]).header.block_hash == d {
        let i = choose|i: int| 0 <= i < batch.len() && (#[trigger] batch[i]).header.block_hash == d;
        assert(hashes[i] == d);
    }
    if hashes.contains(d) {
        let i = choose|i: int| 0 <= i < hashes.len() && hashes[i] == d;
        assert(batch[i].header.block_hash == d);
    }
}

/// Proved entries are kept by their kind and id, the later in place of the earlier;
/// empty slots keep nothing.
pub proof fn law_the_last_proof_counts(
    m: Map<(ProofKind, u64), EntryView>,
    items: Seq<Option<EntryView>>,
    e: EntryView,
)
    ensures
        spv::cached(m, Seq::empty()) == m,
        spv::cached(m, items.push(None)) == spv::cached(m, items),
        spv::cached(m, items.push(Some(e))) == spv::cached(m, items).insert((e.kind(), e.id()), e),
{
    assert(items.push(None).drop_last() =~= items);
    assert(items.push(Some(e)).drop_last() =~= items);
}

/// A reply with proofs is kept and not answered.
pub proof fn law_proofs_are_kept(n: LightView, from: u64, items: Seq<Option<EntryView>>)
    ensures
        ({
            let (after, out) = spv::light_reacted(n, from, MsgView::Proof { items });
            &&& out.len() == 0
            &&& after == (LightView {
                peers: n.peers.insert(from),
                proofs: spv::cached(n.proofs, items),
                ..n
            })
        }),
{
}

/// Of any other message a light peer learns only who sent it.
pub proof fn law_other_messages_are_ignored(n: LightView, from: u64, m: MsgView)
    requires
        !(m is Status),
        !(m is Headers),
        !(m is Proof),
    ensures
        spv::light_reacted(n, from, m) == (
            LightView { peers: n.peers.insert(from), ..n },
            Seq::<(u64, MsgView)>::empty(),
        ),
{
}

// --- the chain ----------------------------------------------------------------

/// A chain starts with the hash of its genesis block as its only hash and its head.
pub proof fn law_a_chain_starts_at_genesis(g: GenesisView)
    ensures
        ({
            let c = chain::genesis_chain(g);
            let h = tx::block_hash(state::genesis_block(g));
            &&& c.head == h
            &&& c.genesis_hash == h
            &&& c.block_hashes == seq![h]
            &&& c.state == state::genesis_state(g)
        }),
{
}

/// A block extends a chain exactly where it names the head and applies as a whole. Its
/// hash is then the head and the last of the hashes, and the state and the receipt are
/// those of applying it. A block that names another predecessor is refused for that,
/// whatever else is wrong with it.
pub proof fn law_a_block_extends_the_head(judge: Judge, c: ChainView, b: BlockView)
    ensures
        b.prev_hash != c.head ==> chain::committed(judge, c, b) == Err::<
            (ChainView, ReceiptView),
            ChainError,
        >(ChainError::BadPrevHash),
        b.prev_hash == c.head ==> match state::applied_block(judge, c.state, b) {
            Err(e) => chain::committed(judge, c, b) == Err::<(ChainView, ReceiptView), ChainError>(
                e,
            ),
            Ok((st, receipt)) => {
                let r = chain::committed(judge, c, b);
                &&& r is Ok
                &&& r->Ok_0.0.state == st
                &&& r->Ok_0.0.head == tx::block_hash(b)
                &&& r->Ok_0.0.genesis_hash == c.genesis_hash
                &&& r->Ok_0.0.block_hashes.drop_last() == c.block_hashes
                &&& r->Ok_0.0.block_hashes.last() == tx::block_hash(b)
                &&& r->Ok_0.1 == receipt
            },
        },
{
    if b.prev_hash == c.head {
        if let Ok((c2, _)) = chain::committed(judge, c, b) {
            assert(c2.block_hashes.drop_last() =~= c.block_hashes);
        }
    }
}

// --- the supply ---------------------------------------------------------------

/// What the accounts hold is the sum of their balances.
pub proof fn law_balances_add_up(accounts: Map<u64, Account>, id: u64, a: Account)
    requires
        accounts.dom().finite(),
        !accounts.contains_key(id),
    ensures
        ledger::held(Map::empty()) == 0,
        ledger::held(accounts.insert(id, a)) == ledger::held(accounts) + a.balance,
{
    ledger::lemma_held_insert(accounts, id, a);
    assert(accounts.remove(id) =~= accounts);
}

/// Of two states that conserve the supply, the supplies differ by exactly what the
/// balances and the treasuries differ.
pub proof fn law_conservation_is_exact(st: StateView, other: StateView)
    requires
        ledger::conserved(st),
        ledger::conserved(other),
    ensures
        ledger::held(st.accounts) - ledger::held(other.accounts) + st.treasury - other.treasury
            == st.supply - other.supply,
{
}

// --- trees --------------------------------------------------------------------

/// A leaf is hashed behind a zero byte and an inner node behind a one, the left child
/// before the right.
pub proof fn law_tree_hashes(data: Seq<u8>, left: Digest, right: Digest)
    ensures
        merkle::leaf_digest(data) == hash::hash_of(seq![0u8] + data),
        merkle::node_digest(left, right) == hash::hash_of(seq![1u8] + left@ + right@),
        merkle::stepped(left, Step::Right(right)) == merkle::node_digest(left, right),
        merkle::stepped(right, Step::Left(left)) == merkle::node_digest(left, right),
{
}

/// The smallest trees: the hash of nothing, the leaf itself, and for up to four leaves
/// neighbours paired from the left, with one left over moving up unchanged.
pub proof fn law_small_trees(a: Digest, b: Digest, c: Digest, d: Digest)
    ensures
        merkle::root_of(Seq::empty()) == hash::hash_of(Seq::empty()),
        merkle::root_of(seq![a]) == a,
        merkle::root_of(seq![a, b]) == merkle::node_digest(a, b),
        merkle::root_of(seq![a, b, c]) == merkle::node_digest(merkle::node_digest(a, b), c),
        merkle::root_of(seq![a, b, c, d]) == merkle::node_digest(
            merkle::node_digest(a, b),
            merkle::node_digest(c, d),
        ),
{
    reveal_with_fuel(merkle::root_of, 4);
    assert(merkle::parents(seq![a, b]) =~= seq![merkle::node_digest(a, b)]);
    assert(merkle::parents(seq![a, b, c]) =~= seq![merkle::node_digest(a, b), c]);
    assert(merkle::parents(seq![a, b, c, d]) =~= seq![
        merkle::node_digest(a, b),
        merkle::node_digest(c, d),
    ]);
    assert(merkle::parents(seq![merkle::node_digest(a, b), c]) =~= seq![
        merkle::node_digest(merkle::node_digest(a, b), c),
    ]);
    assert(merkle::parents(seq![merkle::node_digest(a, b), merkle::node_digest(c, d)]) =~= seq![
        merkle::node_digest(merkle::node_digest(a, b), merkle::node_digest(c, d)),
    ]);
}

/// Every level pairs its neighbours from the left, and the tree above the pairs has the
/// same root.
pub proof fn law_levels_pair_neighbours(level: Seq<Digest>, i: int)
    requires
        level.len() > 1,
        0 <= i < level.len(),
    ensures
        ({
            let up = merkle::parents(level);
            &&& merkle::root_of(level) == merkle::root_of(up)
            &&& 2 * up.len() == level.len() || 2 * up.len() == level.len() + 1
            &&& i % 2 == 1 ==> up[i / 2] == merkle::node_digest(level[i - 1], level[i])
            &&& i % 2 == 0 && i + 1 == level.len() ==> up[i / 2] == level[i]
        }),
{
    assert(i % 2 == 1 ==> 2 * (i / 2) == i - 1);
    assert(i % 2 == 0 ==> 2 * (i / 2) == i);
}

} // verus!
