//! Submissions and blocks.

use vstd::prelude::*;

use crate::codec;
use crate::crypto;
use crate::crypto::Keypair;
use crate::hash;
use crate::hash::sha256;
use crate::{Digest, Embedding, Sig};

verus! {

/// A score for a submission, meant to lie between zero and one. The standing of
/// the one who gave it is read from chain state, never from the transaction.
#[derive(Clone, Copy, Debug)]
pub struct Review {
    pub reviewer: u64,
    /// The bits of the score.
    pub score: u32,
}

/// A knowledge submission: the unit of work that is rewarded.
#[derive(Debug)]
pub struct SubmissionTx {
    pub author: u64,
    pub embedding: Embedding,
    pub domain: u32,
    /// Escrow in micro-units: returned on acceptance, slashed on rejection.
    pub stake: u64,
    pub reviews: Vec<Review>,
    pub repl_success: u32,
    pub repl_total: u32,
    /// The bits of the claimed authoring time in days.
    pub timestamp_days: u32,
    /// A signature by the author's key over [`codec::tx_signing_bytes`].
    pub signature: Sig,
}

#[verifier::ext_equal]
pub struct TxView {
    pub author: u64,
    pub embedding: Embedding,
    pub domain: u32,
    pub stake: u64,
    pub reviews: Seq<Review>,
    pub repl_success: u32,
    pub repl_total: u32,
    pub timestamp_days: u32,
    pub signature: Sig,
}

impl View for SubmissionTx {
    type V = TxView;

    open spec fn view(&self) -> TxView {
        TxView {
            author: self.author,
            embedding: self.embedding,
            domain: self.domain,
            stake: self.stake,
            reviews: self.reviews@,
            repl_success: self.repl_success,
            repl_total: self.repl_total,
            timestamp_days: self.timestamp_days,
            signature: self.signature,
        }
    }
}

/// The content hash of a transaction, over its full encoding.
pub open spec fn tx_hash(t: TxView) -> Digest {
    hash::hash_of(codec::encoded_tx(t))
}

impl Clone for SubmissionTx {
    fn clone(&self) -> (r: SubmissionTx)
        ensures
            r@ == self@,
    {
        let reviews = self.reviews.clone();
        assert(reviews@ =~= self.reviews@);
        SubmissionTx {
            author: self.author,
            embedding: self.embedding,
            domain: self.domain,
            stake: self.stake,
            reviews,
            repl_success: self.repl_success,
            repl_total: self.repl_total,
            timestamp_days: self.timestamp_days,
            signature: self.signature,
        }
    }
}

impl SubmissionTx {
    /// Fills in the signature with `kp`'s over all other fields. It verifies under
    /// the public half of `kp`.
    pub fn signed(self, kp: &Keypair) -> (r: SubmissionTx)
        ensures
            r@ == (TxView {
                signature: crypto::signature(kp@, codec::signing_bytes(self@)),
                ..self@
            }),
            crypto::ed25519_verify(
                crypto::ed25519_public(kp@),
                codec::signing_bytes(r@),
                r@.signature@,
            ),
    {
        let mut tx = self;
        let bytes = codec::tx_signing_bytes(&tx);
        tx.signature = kp.sign(bytes.as_slice());
        proof {
            codec::lemma_signature_is_not_signed(self@, tx@.signature);
        }
        tx
    }

    /// The content hash of the transaction. Pools order by it, so every builder
    /// lays out a block in the same way.
    pub fn hash(&self) -> (r: Digest)
        ensures
            r == tx_hash(self@),
    {
        let bytes = codec::encode_tx(self);
        sha256(bytes.as_slice())
    }
}

/// An ordered batch of submissions that apply together or not at all.
#[derive(Debug)]
pub struct Block {
    pub height: u64,
    pub prev_hash: Digest,
    /// The bits of the block's time in days.
    pub timestamp_days: u32,
    pub txs: Vec<SubmissionTx>,
}

#[verifier::ext_equal]
pub struct BlockView {
    pub height: u64,
    pub prev_hash: Digest,
    pub timestamp_days: u32,
    pub txs: Seq<TxView>,
}

/// The contents of a list of transactions.
pub open spec fn txs_view(txs: Seq<SubmissionTx>) -> Seq<TxView> {
    txs.map_values(|t: SubmissionTx| t@)
}

impl View for Block {
    type V = BlockView;

    open spec fn view(&self) -> BlockView {
        BlockView {
            height: self.height,
            prev_hash: self.prev_hash,
            timestamp_days: self.timestamp_days,
            txs: txs_view(self.txs@),
        }
    }
}

/// The content hash of a block, over the bytes that it is stored as.
pub open spec fn block_hash(b: BlockView) -> Digest {
    hash::hash_of(codec::encoded_block(b))
}

/// A copy of a list of transactions.
pub(crate) fn clone_txs(txs: &Vec<SubmissionTx>) -> (r: Vec<SubmissionTx>)
    ensures
        txs_view(r@) == txs_view(txs@),
{
    let mut r: Vec<SubmissionTx> = Vec::new();
    let mut i: usize = 0;
    while i < txs.len()
        invariant
            i <= txs.len(),
            txs_view(r@) == txs_view(txs@).take(i as int),
        decreases txs.len() - i,
    {
        let ghost before = r@;
        let t = txs[i].clone();
        r.push(t);
        assert(txs_view(r@) =~= txs_view(before).push(t@));
        assert(txs_view(txs@).take(i + 1) =~= txs_view(txs@).take(i as int).push(t@));
        i += 1;
    }
    assert(txs_view(txs@).take(i as int) =~= txs_view(txs@));
    r
}

impl Clone for Block {
    fn clone(&self) -> (r: Block)
        ensures
            r@ == self@,
    {
        Block {
            height: self.height,
            prev_hash: self.prev_hash,
            timestamp_days: self.timestamp_days,
            txs: clone_txs(&self.txs),
        }
    }
}

impl Block {
    /// The content hash of the block, over the bytes that it is stored as.
    pub fn hash(&self) -> (r: Digest)
        ensures
            r == block_hash(self@),
    {
        let bytes = codec::encode_block(self);
        sha256(bytes.as_slice())
    }
}

} // verus!
