//! The chain: a hash-linked sequence of blocks over the state.

use vstd::prelude::*;

use crate::bytes::same_bytes;
use crate::codec;
use crate::graph;
use crate::graph::{Assessment, Judge};
use crate::ledger;
use crate::merkle;
use crate::roots;
use crate::state;
use crate::state::{
    BlockReceipt, ChainError, ChainState, Genesis, GenesisView, ReceiptView, StateView,
};
use crate::tx;
use crate::tx::{Block, BlockView, TxView};
use crate::Digest;

verus! {

/// A state with the hashes of the blocks that led to it.
pub struct Chain {
    pub state: ChainState,
    pub head: Digest,
    pub genesis_hash: Digest,
    pub block_hashes: Vec<Digest>,
}

#[verifier::ext_equal]
pub struct ChainView {
    pub state: StateView,
    pub head: Digest,
    pub genesis_hash: Digest,
    pub block_hashes: Seq<Digest>,
}

impl View for Chain {
    type V = ChainView;

    open spec fn view(&self) -> ChainView {
        ChainView {
            state: self.state@,
            head: self.head,
            genesis_hash: self.genesis_hash,
            block_hashes: self.block_hashes@,
        }
    }
}

/// The chain that holds nothing but its genesis.
pub open spec fn genesis_chain(g: GenesisView) -> ChainView {
    let h = tx::block_hash(state::genesis_block(g));
    ChainView {
        state: state::genesis_state(g),
        head: h,
        genesis_hash: h,
        block_hashes: seq![h],
    }
}

/// A block committed: it must extend the head and apply as a whole.
pub open spec fn committed(judge: Judge, c: ChainView, b: BlockView) -> Result<
    (ChainView, ReceiptView),
    ChainError,
> {
    if b.prev_hash != c.head {
        Err(ChainError::BadPrevHash)
    } else {
        match state::applied_block(judge, c.state, b) {
            Err(e) => Err(e),
            Ok((after, receipt)) => Ok(
                (
                    ChainView {
                        state: after,
                        head: tx::block_hash(b),
                        genesis_hash: c.genesis_hash,
                        block_hashes: c.block_hashes.push(tx::block_hash(b)),
                    },
                    receipt,
                ),
            ),
        }
    }
}

/// Blocks committed one after another; the first that fails decides the error.
pub open spec fn replayed(judge: Judge, c: ChainView, bs: Seq<BlockView>) -> Result<
    ChainView,
    ChainError,
>
    decreases bs.len(),
{
    if bs.len() == 0 {
        Ok(c)
    } else {
        match replayed(judge, c, bs.drop_last()) {
            Err(e) => Err(e),
            Ok(before) => match committed(judge, before, bs.last()) {
                Err(e) => Err(e),
                Ok((after, _)) => Ok(after),
            },
        }
    }
}

/// What the blocks in a list hold.
pub open spec fn blocks_view(bs: Seq<Block>) -> Seq<BlockView> {
    bs.map_values(|b: Block| b@)
}

// --- laws ---------------------------------------------------------------------

/// A failure among the first blocks is the failure of all.
pub proof fn lemma_replayed_prefix(judge: Judge, c: ChainView, bs: Seq<BlockView>, i: int)
    requires
        0 <= i <= bs.len(),
        replayed(judge, c, bs.take(i)) is Err,
    ensures
        replayed(judge, c, bs) is Err,
        replayed(judge, c, bs)->Err_0 == replayed(judge, c, bs.take(i))->Err_0,
    decreases bs.len() - i,
{
    if i == bs.len() {
        assert(bs.take(i) =~= bs);
    } else {
        assert(bs.take(i + 1).drop_last() =~= bs.take(i));
        lemma_replayed_prefix(judge, c, bs, i + 1);
    }
}

/// Replaying a log in two parts is the same as replaying it at once.
pub proof fn law_replay_resumes(
    judge: Judge,
    c: ChainView,
    first: Seq<BlockView>,
    second: Seq<BlockView>,
)
    ensures
        replayed(judge, c, first + second) == match replayed(judge, c, first) {
            Err(e) => Err(e),
            Ok(mid) => replayed(judge, mid, second),
        },
    decreases second.len(),
{
    if second.len() == 0 {
        assert(first + second =~= first);
    } else {
        let all = first + second;
        assert(all.drop_last() =~= first + second.drop_last());
        law_replay_resumes(judge, c, first, second.drop_last());
    }
}

/// Every replayed block adds one to the height and its hash to the list of hashes;
/// the last one is the head, and each names its predecessor.
pub proof fn law_replay_links(judge: Judge, c: ChainView, bs: Seq<BlockView>)
    requires
        c.block_hashes.len() > 0,
        c.block_hashes.last() == c.head,
    ensures
        replayed(judge, c, bs) matches Ok(r) ==> {
            &&& r.state.height == c.state.height + bs.len()
            &&& r.genesis_hash == c.genesis_hash
            &&& r.block_hashes == c.block_hashes + bs.map_values(
                |b: BlockView| tx::block_hash(b),
            )
            &&& r.head == r.block_hashes.last()
            &&& forall|i: int|
                0 <= i < bs.len() ==> {
                    &&& (#[trigger] bs[i]).prev_hash == r.block_hashes[c.block_hashes.len() + i - 1]
                    &&& bs[i].height == c.state.height + i + 1
                }
        },
    decreases bs.len(),
{
    if bs.len() == 0 {
        assert(c.block_hashes + bs.map_values(|b: BlockView| tx::block_hash(b))
            =~= c.block_hashes);
    } else {
        law_replay_links(judge, c, bs.drop_last());
        if let Ok(mid) = replayed(judge, c, bs.drop_last()) {
            if let Ok((r, _)) = committed(judge, mid, bs.last()) {
                assert(r.block_hashes =~= c.block_hashes + bs.map_values(
                    |b: BlockView| tx::block_hash(b),
                ));
                assert forall|i: int| 0 <= i < bs.len() implies {
                    &&& (#[trigger] bs[i]).prev_hash == r.block_hashes[c.block_hashes.len() + i - 1]
                    &&& bs[i].height == c.state.height + i + 1
                } by {
                    if i < bs.len() - 1 {
                        assert(bs.drop_last()[i] == bs[i]);
                    }
                }
                state::lemma_applied_txs(
                    judge,
                    StateView { now_days: bs.last().timestamp_days, ..mid.state },
                    bs.last().txs,
                );
            }
        }
    }
}

/// Blocks leave the validator set as it is.
pub proof fn lemma_replay_keeps_validators(judge: Judge, c: ChainView, bs: Seq<BlockView>)
    ensures
        replayed(judge, c, bs) matches Ok(r) ==> r.state.validators == c.state.validators,
    decreases bs.len(),
{
    if bs.len() > 0 {
        lemma_replay_keeps_validators(judge, c, bs.drop_last());
        if let Ok(mid) = replayed(judge, c, bs.drop_last()) {
            state::lemma_applied_txs(
                judge,
                StateView { now_days: bs.last().timestamp_days, ..mid.state },
                bs.last().txs,
            );
        }
    }
}

/// Nodes that replay the same blocks on the same genesis end with the same chain,
/// the same state digest and the same Merkle root.
pub proof fn law_same_history_same_state(
    judge: Judge,
    g: GenesisView,
    bs: Seq<BlockView>,
    a: ChainView,
    b: ChainView,
)
    requires
        replayed(judge, genesis_chain(g), bs) == Ok::<ChainView, ChainError>(a),
        replayed(judge, genesis_chain(g), bs) == Ok::<ChainView, ChainError>(b),
    ensures
        a == b,
        roots::digest_of(a.state) == roots::digest_of(b.state),
        roots::root_of(a.state) == roots::root_of(b.state),
{
}

/// Two blocks with the same hash are the same up to the NaNs they hold, unless their
/// encodings collide.
pub proof fn law_a_hash_names_one_block(a: BlockView, b: BlockView)
    requires
        codec::block_countable(a),
        codec::block_countable(b),
        tx::block_hash(a) == tx::block_hash(b),
    ensures
        codec::canonical_block(a) == codec::canonical_block(b) || merkle::collide(
            codec::encoded_block(a),
            codec::encoded_block(b),
        ),
{
    let x = codec::encoded_block(a);
    let y = codec::encoded_block(b);
    if x == y {
        codec::law_block_encoding_is_injective(a, b);
    } else {
        assert(merkle::collide(x, y));
    }
}

/// Two submissions with the same hash are the same up to the NaNs they hold, signature
/// and all, unless their encodings collide.
pub proof fn law_a_hash_names_one_submission(a: TxView, b: TxView)
    requires
        codec::tx_countable(a),
        codec::tx_countable(b),
        tx::tx_hash(a) == tx::tx_hash(b),
    ensures
        codec::canonical_tx(a) == codec::canonical_tx(b) || merkle::collide(
            codec::encoded_tx(a),
            codec::encoded_tx(b),
        ),
{
    let x = codec::encoded_tx(a);
    let y = codec::encoded_tx(b);
    if x == y {
        codec::law_tx_encoding_is_injective(a, b);
    } else {
        assert(merkle::collide(x, y));
    }
}

/// Whether the lists of every block of a log can be counted in 64-bit words, as all
/// lists in memory can.
pub open spec fn countable(bs: Seq<BlockView>) -> bool {
    forall|i: int| 0 <= i < bs.len() ==> codec::block_countable(#[trigger] bs[i])
}

/// Blocks with their NaNs made canonical.
pub open spec fn canonical_blocks(bs: Seq<BlockView>) -> Seq<BlockView> {
    bs.map_values(|b: BlockView| codec::canonical_block(b))
}

/// All blocks of a chain, from the one that stands for the genesis.
pub open spec fn history(g: GenesisView, bs: Seq<BlockView>) -> Seq<BlockView> {
    seq![state::genesis_block(g)] + bs
}

/// Whether the encodings of two blocks of two chains collide.
pub open spec fn histories_collide(g: GenesisView, a: Seq<BlockView>, b: Seq<BlockView>) -> bool {
    exists|i: int, j: int|
        0 <= i <= a.len() && 0 <= j <= b.len() && merkle::collide(
            codec::encoded_block(#[trigger] history(g, a)[i]),
            codec::encoded_block(#[trigger] history(g, b)[j]),
        )
}

/// The head commits to the whole history: two logs that lead from one genesis to one
/// head hold the same blocks, unless the encodings of two of their blocks collide.
pub proof fn law_the_head_commits_to_history(
    judge: Judge,
    g: GenesisView,
    a: Seq<BlockView>,
    b: Seq<BlockView>,
)
    requires
        countable(a),
        countable(b),
        replayed(judge, genesis_chain(g), a) is Ok,
        replayed(judge, genesis_chain(g), b) is Ok,
        replayed(judge, genesis_chain(g), a)->Ok_0.head == replayed(
            judge,
            genesis_chain(g),
            b,
        )->Ok_0.head,
    ensures
        canonical_blocks(a) == canonical_blocks(b) || histories_collide(g, a, b),
    decreases a.len() + b.len(),
{
    let start = genesis_chain(g);
    law_replay_links(judge, start, a);
    law_replay_links(judge, start, b);
    let (ha, hb) = (history(g, a), history(g, b));
    assert(ha[0] == state::genesis_block(g) && hb[0] == state::genesis_block(g));
    assert(a.len() > 0 ==> ha[a.len() as int] == a.last());
    assert(b.len() > 0 ==> hb[b.len() as int] == b.last());
    if a.len() == 0 && b.len() == 0 {
        assert(canonical_blocks(a) =~= canonical_blocks(b));
    } else if a.len() == 0 {
        assert(ends_at_last(judge, start, b));
        law_a_hash_names_one_block(state::genesis_block(g), b.last());
    } else if b.len() == 0 {
        assert(ends_at_last(judge, start, a));
        law_a_hash_names_one_block(state::genesis_block(g), a.last());
    } else {
        assert(ends_at_last(judge, start, a));
        assert(ends_at_last(judge, start, b));
        law_a_hash_names_one_block(a.last(), b.last());
        if codec::canonical_block(a.last()) == codec::canonical_block(b.last()) {
            assert(a.last().prev_hash == b.last().prev_hash);
            assert(countable(a.drop_last())) by {
                assert forall|i: int| 0 <= i < a.drop_last().len() implies
                    codec::block_countable(#[trigger] a.drop_last()[i]) by {
                    assert(a.drop_last()[i] == a[i]);
                }
            }
            assert(countable(b.drop_last())) by {
                assert forall|i: int| 0 <= i < b.drop_last().len() implies
                    codec::block_countable(#[trigger] b.drop_last()[i]) by {
                    assert(b.drop_last()[i] == b[i]);
                }
            }
            law_the_head_commits_to_history(judge, g, a.drop_last(), b.drop_last());
            if histories_collide(g, a.drop_last(), b.drop_last()) {
                let (ia, ib) = (history(g, a.drop_last()), history(g, b.drop_last()));
                let (i, j) = choose|i: int, j: int|
                    0 <= i <= a.len() - 1 && 0 <= j <= b.len() - 1 && merkle::collide(
                        codec::encoded_block(#[trigger] ia[i]),
                        codec::encoded_block(#[trigger] ib[j]),
                    );
                assert(ha[i] == ia[i] && hb[j] == ib[j]);
            }
            if canonical_blocks(a.drop_last()) == canonical_blocks(b.drop_last()) {
                assert(canonical_blocks(a) =~= canonical_blocks(a.drop_last()).push(
                    codec::canonical_block(a.last()),
                ));
                assert(canonical_blocks(b) =~= canonical_blocks(b.drop_last()).push(
                    codec::canonical_block(b.last()),
                ));
            }
        }
    }
}

/// Whether a replay ends at the hash of its last block.
spec fn ends_at_last(judge: Judge, c: ChainView, bs: Seq<BlockView>) -> bool {
    replayed(judge, c, bs)->Ok_0.head == tx::block_hash(bs.last())
}

/// Replaying blocks conserves the supply.
pub proof fn law_replay_conserves(judge: Judge, c: ChainView, bs: Seq<BlockView>)
    requires
        c.state.accounts.dom().finite(),
        ledger::conserved(c.state),
    ensures
        replayed(judge, c, bs) matches Ok(r) ==> {
            &&& r.state.accounts.dom() == c.state.accounts.dom()
            &&& ledger::conserved(r.state)
        },
    decreases bs.len(),
{
    if bs.len() > 0 {
        law_replay_conserves(judge, c, bs.drop_last());
        if let Ok(mid) = replayed(judge, c, bs.drop_last()) {
            ledger::law_block_conserves(judge, mid.state, bs.last());
        }
    }
}

/// A chain grown from a genesis whose accounts hold no more than fits a 64-bit word
/// conserves its supply, whatever blocks it commits.
pub proof fn law_supply_is_conserved(judge: Judge, g: GenesisView, bs: Seq<BlockView>)
    requires
        state::endowment(g.accounts) <= u64::MAX,
    ensures
        replayed(judge, genesis_chain(g), bs) matches Ok(r) ==> ledger::conserved(r.state),
{
    ledger::law_genesis_conserves(g);
    law_replay_conserves(judge, genesis_chain(g), bs);
}

impl Chain {
    /// The chain that holds nothing but its genesis.
    pub fn new(g: Genesis) -> (r: Chain)
        requires
            state::power_fits(g@),
        ensures
            r@ == genesis_chain(g@),
    {
        let (state, gh) = ChainState::genesis(g);
        let mut block_hashes: Vec<Digest> = Vec::new();
        block_hashes.push(gh);
        assert(block_hashes@ =~= seq![gh]);
        Chain { state, head: gh, genesis_hash: gh, block_hashes }
    }

    /// Checks and commits a block, all or nothing: it is applied to a copy of the
    /// state, so one invalid submission leaves the whole chain as it was.
    pub fn commit<F: Fn(&Assessment) -> u32>(&mut self, engine: &F, b: &Block) -> (r: Result<
        BlockReceipt,
        ChainError,
    >)
        requires
            graph::is_function(*engine),
        ensures
            match committed(graph::judge(*engine), old(self)@, b@) {
                Ok((after, receipt)) => {
                    &&& r matches Ok(x) && x@ == receipt
                    &&& final(self)@ == after
                },
                Err(e) => {
                    &&& r matches Err(x) && x == e
                    &&& final(self)@ == old(self)@
                },
            },
    {
        if !same_bytes(&b.prev_hash, &self.head) {
            return Err(ChainError::BadPrevHash);
        }
        let mut trial = self.state.clone();
        match trial.apply_block(engine, b) {
            Ok(receipt) => {
                self.state = trial;
                self.head = receipt.hash;
                self.block_hashes.push(receipt.hash);
                Ok(receipt)
            },
            Err(e) => Err(e),
        }
    }

    /// Rebuilds a chain by committing `blocks` on top of a genesis. Each block is
    /// checked exactly as if it were new, so a tampered log fails here.
    pub fn replay<F: Fn(&Assessment) -> u32>(engine: &F, g: Genesis, blocks: &[Block]) -> (r:
        Result<Chain, ChainError>)
        requires
            graph::is_function(*engine),
            state::power_fits(g@),
        ensures
            match replayed(graph::judge(*engine), genesis_chain(g@), blocks_view(blocks@)) {
                Ok(c) => r matches Ok(x) && x@ == c,
                Err(e) => r matches Err(x) && x == e,
            },
    {
        let ghost judge = graph::judge(*engine);
        let ghost start = genesis_chain(g@);
        let ghost all = blocks_view(blocks@);
        let mut chain = Chain::new(g);
        let mut i: usize = 0;
        assert(all.take(0) =~= Seq::<BlockView>::empty());
        while i < blocks.len()
            invariant
                i <= blocks.len(),
                graph::is_function(*engine),
                judge == graph::judge(*engine),
                all == blocks_view(blocks@),
                start == genesis_chain(g@),
                replayed(judge, start, all.take(i as int)) == Ok::<ChainView, ChainError>(chain@),
            decreases blocks.len() - i,
        {
            assert(all.take(i + 1).drop_last() =~= all.take(i as int));
            match chain.commit(engine, &blocks[i]) {
                Ok(_) => {},
                Err(e) => {
                    proof {
                        lemma_replayed_prefix(judge, start, all, i + 1);
                    }
                    return Err(e);
                },
            }
            i += 1;
        }
        assert(all.take(i as int) =~= all);
        Ok(chain)
    }
}

} // verus!
