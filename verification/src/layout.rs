//! Where each field stands in the canonical bytes.
//!
//! The laws below say of every encoding which word is found at which offset. Words are
//! big-endian; scores, coordinates and times are bit patterns with every NaN made
//! canonical.

use vstd::prelude::*;

use crate::bytes;
use crate::codec;
use crate::commitment;
use crate::consensus;
use crate::consensus::{CommitView, SlashEvidence, StakeOp, Vote, VoteType};
use crate::gossip;
use crate::gossip::MsgView;
use crate::graph::{GraphNode, DIM};
use crate::hash;
use crate::ieee;
use crate::light::{CertifiedView, EntryView, ProofKind};
use crate::merkle;
use crate::merkle::Step;
use crate::ordered;
use crate::parse;
use crate::parse::CodecError;
use crate::roots;
use crate::state::{Account, StateView};
use crate::store;
use crate::store::LogError;
use crate::tx;
use crate::tx::{BlockView, TxView};
use crate::validator;
use crate::validator::Validator;
use crate::wire;
use crate::Embedding;

verus! {

// --- words --------------------------------------------------------------------

/// A 32-bit word is written with its most significant byte first.
pub proof fn law_words_of_four_bytes(x: u32)
    ensures
        bytes::be32(x).len() == 4,
        bytes::be32(x)[0] * 0x100_0000 + bytes::be32(x)[1] * 0x1_0000 + bytes::be32(x)[2] * 0x100
            + bytes::be32(x)[3] == x,
{
    reveal(bytes::be32);
}

/// A 64-bit word is written with its most significant byte first.
pub proof fn law_words_of_eight_bytes(x: u64)
    ensures
        bytes::be64(x).len() == 8,
        bytes::be64(x)[0] * 0x100_0000_0000_0000 + bytes::be64(x)[1] * 0x1_0000_0000_0000
            + bytes::be64(x)[2] * 0x100_0000_0000 + bytes::be64(x)[3] * 0x1_0000_0000 + bytes::be64(
            x,
        )[4] * 0x100_0000 + bytes::be64(x)[5] * 0x1_0000 + bytes::be64(x)[6] * 0x100 + bytes::be64(
            x,
        )[7] == x,
{
    reveal(bytes::be64);
    law_words_of_four_bytes((x / 0x1_0000_0000) as u32);
    law_words_of_four_bytes((x % 0x1_0000_0000) as u32);
}

/// What a word is read as depends on its own bytes alone, most significant first.
pub proof fn law_words_are_read_from_their_bytes(s: Seq<u8>)
    ensures
        s.len() >= 4 ==> bytes::word32(s) == s[0] * 0x100_0000 + s[1] * 0x1_0000 + s[2] * 0x100
            + s[3],
        s.len() >= 8 ==> bytes::word64(s) == (s[0] * 0x100_0000 + s[1] * 0x1_0000 + s[2] * 0x100
            + s[3]) * 0x1_0000_0000 + (s[4] * 0x100_0000 + s[5] * 0x1_0000 + s[6] * 0x100 + s[7]),
{
    reveal(bytes::word32);
    reveal(bytes::word64);
}

proof fn lemma_word64_at(s: Seq<u8>, at: int, x: u64, rest: Seq<u8>)
    requires
        0 <= at <= s.len(),
        s.skip(at) == bytes::be64(x) + rest,
    ensures
        bytes::word64(s.skip(at)) == x,
        at + 8 <= s.len(),
        s.skip(at + 8) == rest,
{
    bytes::lemma_be64_word64(x, rest);
    assert(s.skip(at).len() >= 8);
    assert(s.skip(at + 8) =~= s.skip(at).skip(8));
}

proof fn lemma_word32_at(s: Seq<u8>, at: int, x: u32, rest: Seq<u8>)
    requires
        0 <= at <= s.len(),
        s.skip(at) == bytes::be32(x) + rest,
    ensures
        bytes::word32(s.skip(at)) == x,
        at + 4 <= s.len(),
        s.skip(at + 4) == rest,
{
    bytes::lemma_be32_word32(x, rest);
    assert(s.skip(at).len() >= 4);
    assert(s.skip(at + 4) =~= s.skip(at).skip(4));
}

proof fn lemma_part_at(s: Seq<u8>, at: int, part: Seq<u8>, rest: Seq<u8>)
    requires
        0 <= at <= s.len(),
        s.skip(at) == part + rest,
    ensures
        at + part.len() <= s.len(),
        s.subrange(at, at + part.len()) == part,
        s.skip(at + part.len()) == rest,
{
    assert(s.skip(at).len() == part.len() + rest.len());
    assert(part =~= s.skip(at).take(part.len() as int));
    assert(s.subrange(at, at + part.len()) =~= part);
    assert(rest =~= s.skip(at).skip(part.len() as int));
    assert(s.skip(at + part.len()) =~= rest);
}

proof fn lemma_word64_within(s: Seq<u8>, at: int, part: Seq<u8>)
    requires
        0 <= at,
        part.len() >= 8,
        at + part.len() <= s.len(),
        s.subrange(at, at + part.len()) == part,
    ensures
        bytes::word64(s.skip(at)) == bytes::word64(part),
{
    bytes::lemma_word_prefix(s.skip(at));
    bytes::lemma_word_prefix(part);
    assert(s.skip(at).take(8) =~= s.subrange(at, at + part.len()).take(8));
}

proof fn lemma_word32_within(s: Seq<u8>, at: int, part: Seq<u8>)
    requires
        0 <= at,
        part.len() >= 4,
        at + part.len() <= s.len(),
        s.subrange(at, at + part.len()) == part,
    ensures
        bytes::word32(s.skip(at)) == bytes::word32(part),
{
    bytes::lemma_word_prefix(s.skip(at));
    bytes::lemma_word_prefix(part);
    assert(s.skip(at).take(4) =~= s.subrange(at, at + part.len()).take(4));
}

// --- submissions and blocks ---------------------------------------------------

/// An embedding is its coordinates, one word after another.
pub proof fn law_embedding_layout(e: Embedding, i: int)
    requires
        0 <= i < DIM,
    ensures
        parse::emb_bytes(e).len() == 4 * DIM,
        parse::emb_bytes(e).subrange(4 * i, 4 * i + 4) == bytes::be32(e@[i]),
        bytes::word32(parse::emb_bytes(e).skip(4 * i)) == e@[i],
{
    let f = parse::word_bytes();
    assert forall|j: int| 0 <= j < e@.len() implies f(#[trigger] e@[j]).len() == 4 by {
        bytes::lemma_be32_len(e@[j]);
    }
    parse::lemma_joined_at(e@, f, 4, i);
    let s = parse::emb_bytes(e);
    bytes::lemma_be32_len(e@[i]);
    lemma_word32_within(s, 4 * i, bytes::be32(e@[i]));
    let nothing = Seq::<u8>::empty();
    bytes::lemma_be32_word32(e@[i], nothing);
    assert(bytes::be32(e@[i]) + nothing =~= bytes::be32(e@[i]));
}

proof fn lemma_score_widths(t: TxView)
    ensures
        forall|j: int|
            0 <= j < t.reviews.len() ==> codec::review_writer()(#[trigger] t.reviews[j]).len() == 12,
{
    assert forall|j: int| 0 <= j < t.reviews.len() implies codec::review_writer()(
        #[trigger] t.reviews[j],
    ).len() == 12 by {
        bytes::lemma_be64_len(t.reviews[j].reviewer);
        bytes::lemma_be32_len(t.reviews[j].score);
    }
}

/// A submission is written field by field: the author, the embedding, the domain, the
/// stake, the number of scores and the scores, the replications that succeeded and that
/// were tried, the time, and last the signature. Without the signature these are the
/// bytes that the author signs.
pub proof fn law_submission_layout(t: TxView)
    requires
        codec::tx_countable(t),
    ensures
        ({
            let s = codec::encoded_tx(t);
            let n = t.reviews.len() as int;
            &&& s.len() == 360 + 12 * n
            &&& bytes::word64(s) == t.author
            &&& s.subrange(8, 264) == parse::emb_bytes(parse::canonical_emb(t.embedding))
            &&& bytes::word32(s.skip(264)) == t.domain
            &&& bytes::word64(s.skip(268)) == t.stake
            &&& bytes::word64(s.skip(276)) == n
            &&& bytes::word32(s.skip(284 + 12 * n)) == t.repl_success
            &&& bytes::word32(s.skip(288 + 12 * n)) == t.repl_total
            &&& bytes::word32(s.skip(292 + 12 * n)) == ieee::canonical(t.timestamp_days)
            &&& s.skip(296 + 12 * n) == t.signature@
            &&& s.take(296 + 12 * n) == codec::signing_bytes(t)
        }),
{
    broadcast use codec::lemma_regroup;

    let c = codec::canonical_tx(t);
    let n = t.reviews.len() as int;
    let s = codec::encoded_tx(t);
    let nothing = Seq::<u8>::empty();
    let list = parse::joined(c.reviews, codec::review_writer());
    let s8 = c.signature@ + nothing;
    let s7 = bytes::be32(c.timestamp_days) + s8;
    let s6 = bytes::be32(c.repl_total) + s7;
    let s5 = bytes::be32(c.repl_success) + s6;
    let s4 = list + s5;
    let s3 = bytes::be64(c.reviews.len() as u64) + s4;
    let s2 = bytes::be64(c.stake) + s3;
    let s1 = bytes::be32(c.domain) + s2;
    let s0 = parse::emb_bytes(c.embedding) + s1;
    assert(s + nothing =~= s);
    assert(s.skip(0) =~= s);
    assert(s == bytes::be64(c.author) + s0);
    lemma_word64_at(s, 0, c.author, s0);
    law_embedding_layout(c.embedding, 0);
    lemma_part_at(s, 8, parse::emb_bytes(c.embedding), s1);
    lemma_word32_at(s, 264, c.domain, s2);
    lemma_word64_at(s, 268, c.stake, s3);
    lemma_word64_at(s, 276, c.reviews.len() as u64, s4);
    lemma_score_widths(c);
    parse::lemma_joined_at(c.reviews, codec::review_writer(), 12, 0);
    assert(list.len() == 12 * n);
    lemma_part_at(s, 284, list, s5);
    lemma_word32_at(s, 284 + 12 * n, c.repl_success, s6);
    lemma_word32_at(s, 288 + 12 * n, c.repl_total, s7);
    lemma_word32_at(s, 292 + 12 * n, c.timestamp_days, s8);
    assert(s8 =~= c.signature@);
    let body = codec::signing_bytes(t);
    assert(s == body + c.signature@);
    assert(s.len() == body.len() + 64);
    assert(s.skip(296 + 12 * n).len() == 64);
    assert(s.take(296 + 12 * n) =~= body);
}

/// Each score of a submission is the id of who gave it, then the score.
pub proof fn law_score_layout(t: TxView, i: int)
    requires
        codec::tx_countable(t),
        0 <= i < t.reviews.len(),
    ensures
        ({
            let s = codec::encoded_tx(t);
            &&& bytes::word64(s.skip(284 + 12 * i)) == t.reviews[i].reviewer
            &&& bytes::word32(s.skip(292 + 12 * i)) == ieee::canonical(t.reviews[i].score)
        }),
{
    broadcast use codec::lemma_regroup;

    let c = codec::canonical_tx(t);
    let s = codec::encoded_tx(t);
    let w = codec::review_writer();
    let list = parse::joined(c.reviews, w);
    let n = t.reviews.len() as int;
    let front = bytes::be64(c.author) + parse::emb_bytes(c.embedding) + bytes::be32(c.domain)
        + bytes::be64(c.stake) + bytes::be64(c.reviews.len() as u64);
    let back = bytes::be32(c.repl_success) + bytes::be32(c.repl_total) + bytes::be32(
        c.timestamp_days,
    ) + c.signature@;
    assert(s == front + (list + back));
    bytes::lemma_be64_len(c.author);
    bytes::lemma_be64_len(c.stake);
    bytes::lemma_be64_len(c.reviews.len() as u64);
    bytes::lemma_be32_len(c.domain);
    law_embedding_layout(c.embedding, 0);
    assert(front.len() == 284);
    lemma_score_widths(c);
    parse::lemma_joined_at(c.reviews, w, 12, i);
    let r = c.reviews[i];
    let part = w(r);
    assert(list.subrange(12 * i, 12 * i + 12) == part);
    assert(s.subrange(284 + 12 * i, 284 + 12 * i + 12) =~= list.subrange(12 * i, 12 * i + 12));
    let score = bytes::be32(r.score);
    bytes::lemma_be64_word64(r.reviewer, score);
    bytes::lemma_be64_len(r.reviewer);
    bytes::lemma_be32_len(r.score);
    lemma_word64_within(s, 284 + 12 * i, part);
    assert(s.subrange(292 + 12 * i, 292 + 12 * i + 4) =~= score) by {
        assert(score =~= part.skip(8));
        assert(s.subrange(292 + 12 * i, 292 + 12 * i + 4) =~= s.subrange(
            284 + 12 * i,
            284 + 12 * i + 12,
        ).skip(8));
    }
    lemma_word32_within(s, 292 + 12 * i, score);
    let nothing = Seq::<u8>::empty();
    bytes::lemma_be32_word32(r.score, nothing);
    assert(score + nothing =~= score);
}

/// A block is written as its height, the hash of its predecessor, its time, the number of
/// its submissions, and its submissions in order.
pub proof fn law_block_layout(b: BlockView)
    requires
        b.txs.len() <= u64::MAX,
    ensures
        ({
            let s = codec::encoded_block(b);
            &&& s.len() >= 52
            &&& bytes::word64(s) == b.height
            &&& s.subrange(8, 40) == b.prev_hash@
            &&& bytes::word32(s.skip(40)) == ieee::canonical(b.timestamp_days)
            &&& bytes::word64(s.skip(44)) == b.txs.len()
            &&& b.txs.len() == 0 ==> s.len() == 52
        }),
{
    let c = codec::canonical_block(b);
    let s = codec::encoded_block(b);
    let nothing = Seq::<u8>::empty();
    let list = parse::joined(c.txs, codec::tx_writer());
    codec::lemma_regroup_five(
        bytes::be64(c.height),
        c.prev_hash@,
        bytes::be32(c.timestamp_days),
        bytes::be64(c.txs.len() as u64),
        list,
        nothing,
    );
    let s3 = list + nothing;
    let s2 = bytes::be64(c.txs.len() as u64) + s3;
    let s1 = bytes::be32(c.timestamp_days) + s2;
    let s0 = c.prev_hash@ + s1;
    assert(s + nothing =~= s);
    assert(s.skip(0) =~= s);
    lemma_word64_at(s, 0, c.height, s0);
    lemma_part_at(s, 8, c.prev_hash@, s1);
    lemma_word32_at(s, 40, c.timestamp_days, s2);
    lemma_word64_at(s, 44, c.txs.len() as u64, s3);
}

/// A block's submissions stand one after another: adding one appends its encoding.
pub proof fn law_submissions_stand_in_order(b: BlockView, t: TxView)
    requires
        b.txs.len() < u64::MAX,
    ensures
        ({
            let s = codec::encoded_block(b);
            let more = codec::encoded_block(BlockView { txs: b.txs.push(t), ..b });
            &&& s.len() >= 52
            &&& more.take(44) == s.take(44)
            &&& more.skip(52) == s.skip(52) + codec::encoded_tx(t)
        }),
{
    let next = BlockView { txs: b.txs.push(t), ..b };
    let (c, d) = (codec::canonical_block(b), codec::canonical_block(next));
    let (s, more) = (codec::encoded_block(b), codec::encoded_block(next));
    let w = codec::tx_writer();
    assert(d.txs =~= c.txs.push(codec::canonical_tx(t)));
    parse::lemma_joined_push(c.txs, codec::canonical_tx(t), w);
    let head = bytes::be64(c.height) + c.prev_hash@ + bytes::be32(c.timestamp_days);
    bytes::lemma_be64_len(c.height);
    bytes::lemma_be32_len(c.timestamp_days);
    bytes::lemma_be64_len(c.txs.len() as u64);
    bytes::lemma_be64_len(d.txs.len() as u64);
    assert(head.len() == 44);
    assert(s.take(44) =~= head);
    assert(more.take(44) =~= head);
    assert(s.skip(52) =~= parse::joined(c.txs, w));
    assert(more.skip(52) =~= parse::joined(d.txs, w));
}

/// Submissions and blocks are hashed over exactly these bytes.
pub proof fn law_hashes_are_over_the_encodings(t: TxView, b: BlockView)
    ensures
        tx::tx_hash(t) == hash::hash_of(codec::encoded_tx(t)),
        tx::block_hash(b) == hash::hash_of(codec::encoded_block(b)),
{
}

/// A count above a million is refused as implausible, and named; any other is read.
pub proof fn law_implausible_counts_are_refused(n: u64, rest: Seq<u8>)
    ensures
        parse::parse_count(bytes::be64(n) + rest) == if n > 1_000_000 {
            Err::<(u64, Seq<u8>), CodecError>(CodecError::TooManyItems(n))
        } else {
            Ok((n, rest))
        },
{
    bytes::lemma_be64_word64(n, rest);
}

/// A record of the log is the length of a block's encoding, then the encoding; records
/// stand one after another.
pub proof fn law_record_layout(bs: Seq<BlockView>, b: BlockView)
    requires
        codec::encoded_block(b).len() <= u32::MAX,
    ensures
        ({
            let r = store::record_bytes(b);
            &&& r.len() == 4 + codec::encoded_block(b).len()
            &&& bytes::word32(r) == codec::encoded_block(b).len()
            &&& r.skip(4) == codec::encoded_block(b)
            &&& store::log_bytes(bs.push(b)) == store::log_bytes(bs) + r
            &&& store::log_bytes(Seq::empty()).len() == 0
            &&& store::recordable(b)
        }),
{
    bytes::lemma_be32_word32(
        codec::encoded_block(b).len() as u32,
        codec::encoded_block(b),
    );
    parse::lemma_joined_push(bs, b, store::record_writer());
}

// --- messages -----------------------------------------------------------------

/// Every message begins with the byte of its kind, and what follows is its own: heights
/// and counts are words, and a submission, a piece of evidence or a request stands
/// behind its length.
pub proof fn law_message_layout(m: MsgView)
    requires
        gossip::msg_within_limits(m),
    ensures
        ({
            let s = gossip::encoded_msg(m);
            &&& s.len() > 0
            &&& match m {
                MsgView::Status { height } => s[0] == 0 && s.len() == 9 && bytes::word64(s.skip(1))
                    == height,
                MsgView::GetBlocks { from } => s[0] == 1 && s.len() == 9 && bytes::word64(s.skip(1))
                    == from,
                MsgView::Blocks(batch) => s[0] == 2 && bytes::word64(s.skip(1)) == batch.len(),
                MsgView::Tx(t) => s[0] == 3 && bytes::word32(s.skip(1)) == codec::encoded_tx(t).len()
                    && s.skip(5) == codec::encoded_tx(t),
                MsgView::Evidence(ev) => s[0] == 4,
                MsgView::StakeOp(op) => s[0] == 5,
                MsgView::GetHeaders { from } => s[0] == 6 && s.len() == 9 && bytes::word64(s.skip(1))
                    == from,
                MsgView::Headers(batch) => s[0] == 7 && bytes::word64(s.skip(1)) == batch.len(),
                MsgView::GetProof { items } => s[0] == 8 && bytes::word32(s.skip(1)) == items.len(),
                MsgView::Proof { items } => s[0] == 9 && bytes::word32(s.skip(1)) == items.len(),
            }
        }),
{
    let c = gossip::canonical_msg(m);
    let s = gossip::encoded_msg(m);
    let body = gossip::body_bytes(c);
    let nothing = Seq::<u8>::empty();
    assert(s.skip(1) =~= body);
    assert(body + nothing =~= body);
    match m {
        MsgView::Status { height } => {
            bytes::lemma_be64_word64(height, nothing);
            bytes::lemma_be64_len(height);
        },
        MsgView::GetBlocks { from } => {
            bytes::lemma_be64_word64(from, nothing);
            bytes::lemma_be64_len(from);
        },
        MsgView::GetHeaders { from } => {
            bytes::lemma_be64_word64(from, nothing);
            bytes::lemma_be64_len(from);
        },
        MsgView::Blocks(batch) => {
            bytes::lemma_be64_word64(
                batch.len() as u64,
                parse::joined(c->Blocks_0, gossip::pair_writer()),
            );
        },
        MsgView::Headers(batch) => {
            bytes::lemma_be64_word64(
                batch.len() as u64,
                parse::joined(c->Headers_0, gossip::header_writer()),
            );
        },
        MsgView::GetProof { items } => {
            bytes::lemma_be32_word32(
                items.len() as u32,
                parse::joined(items, gossip::ask_writer()),
            );
        },
        MsgView::Proof { items } => {
            bytes::lemma_be32_word32(
                items.len() as u32,
                parse::joined(c->Proof_items, gossip::reply_writer()),
            );
        },
        MsgView::Tx(t) => {
            let e = codec::encoded_tx(t);
            bytes::lemma_be32_word32(e.len() as u32, e);
            assert(s.skip(5) =~= body.skip(4));
        },
        _ => {},
    }
}

/// Two encodings that begin alike in their kind alone are of one kind: no message is
/// taken for one of another kind.
pub proof fn law_kinds_are_told_apart(a: MsgView, b: MsgView)
    requires
        gossip::encoded_msg(a)[0] == gossip::encoded_msg(b)[0],
    ensures
        a is Status == b is Status,
        a is GetBlocks == b is GetBlocks,
        a is Blocks == b is Blocks,
        a is Tx == b is Tx,
        a is Evidence == b is Evidence,
        a is StakeOp == b is StakeOp,
        a is GetHeaders == b is GetHeaders,
        a is Headers == b is Headers,
        a is GetProof == b is GetProof,
        a is Proof == b is Proof,
{
}

/// The parts of a batch stand one after another: one more appends a block and its
/// certificate, each behind its length, a certified header behind its length, the kind
/// and the id that are asked for, or a slot of a reply, which is a zero where it is empty
/// and else a one and the entry behind its length.
pub proof fn law_batches_stand_in_order(
    pairs: Seq<(BlockView, CommitView)>,
    p: (BlockView, CommitView),
    headers: Seq<CertifiedView>,
    h: CertifiedView,
    asks: Seq<(ProofKind, u64)>,
    id: u64,
    slots: Seq<Option<EntryView>>,
    e: EntryView,
)
    ensures
        ({
            let block = codec::encoded_block(p.0);
            let cert = wire::commit_bytes(p.1);
            gossip::encoded_msg(MsgView::Blocks(pairs.push(p))).skip(9) == gossip::encoded_msg(
                MsgView::Blocks(pairs),
            ).skip(9) + (bytes::be32(block.len() as u32) + block + (bytes::be32(cert.len() as u32)
                + cert))
        }),
        ({
            let header = wire::certified_bytes(wire::canonical_certified(h));
            gossip::encoded_msg(MsgView::Headers(headers.push(h))).skip(9) == gossip::encoded_msg(
                MsgView::Headers(headers),
            ).skip(9) + (bytes::be32(header.len() as u32) + header)
        }),
        ({
            let asked = |kind: ProofKind|
                gossip::encoded_msg(MsgView::GetProof { items: asks.push((kind, id)) }).skip(5);
            let before = gossip::encoded_msg(MsgView::GetProof { items: asks }).skip(5);
            &&& asked(ProofKind::Account) == before + (seq![0u8] + bytes::be64(id))
            &&& asked(ProofKind::Reviewer) == before + (seq![1u8] + bytes::be64(id))
            &&& asked(ProofKind::Validator) == before + (seq![2u8] + bytes::be64(id))
            &&& asked(ProofKind::GraphNode) == before + (seq![3u8] + bytes::be64(id))
        }),
        ({
            let entry = wire::entry_bytes(wire::canonical_entry(e));
            let before = gossip::encoded_msg(MsgView::Proof { items: slots }).skip(5);
            &&& gossip::encoded_msg(MsgView::Proof { items: slots.push(None) }).skip(5) == before
                + seq![0u8]
            &&& gossip::encoded_msg(MsgView::Proof { items: slots.push(Some(e)) }).skip(5)
                == before + (seq![1u8] + (bytes::be32(entry.len() as u32) + entry))
        }),
{
    lemma_one_more_pair(pairs, p);
    lemma_one_more_header(headers, h);
    lemma_one_more_ask(asks, (ProofKind::Account, id));
    lemma_one_more_ask(asks, (ProofKind::Reviewer, id));
    lemma_one_more_ask(asks, (ProofKind::Validator, id));
    lemma_one_more_ask(asks, (ProofKind::GraphNode, id));
    lemma_one_more_slot(slots, None);
    lemma_one_more_slot(slots, Some(e));
}

proof fn lemma_behind_long_count(tag: u8, n: u64, list: Seq<u8>)
    ensures
        (seq![tag] + (bytes::be64(n) + list)).skip(9) == list,
{
    bytes::lemma_be64_len(n);
    assert((seq![tag] + (bytes::be64(n) + list)).skip(9) =~= list);
}

proof fn lemma_behind_short_count(tag: u8, n: u32, list: Seq<u8>)
    ensures
        (seq![tag] + (bytes::be32(n) + list)).skip(5) == list,
{
    bytes::lemma_be32_len(n);
    assert((seq![tag] + (bytes::be32(n) + list)).skip(5) =~= list);
}

proof fn lemma_one_more_pair(xs: Seq<(BlockView, CommitView)>, x: (BlockView, CommitView))
    ensures
        gossip::encoded_msg(MsgView::Blocks(xs.push(x))).skip(9) == gossip::encoded_msg(
            MsgView::Blocks(xs),
        ).skip(9) + gossip::pair_writer()(gossip::canonical_pair(x)),
{
    let f = |p: (BlockView, CommitView)| gossip::canonical_pair(p);
    let w = gossip::pair_writer();
    let (a, b) = (xs.map_values(f), xs.push(x).map_values(f));
    assert(b =~= a.push(f(x)));
    parse::lemma_joined_push(a, f(x), w);
    lemma_behind_long_count(2, a.len() as u64, parse::joined(a, w));
    lemma_behind_long_count(2, b.len() as u64, parse::joined(b, w));
}

proof fn lemma_one_more_header(xs: Seq<CertifiedView>, x: CertifiedView)
    ensures
        gossip::encoded_msg(MsgView::Headers(xs.push(x))).skip(9) == gossip::encoded_msg(
            MsgView::Headers(xs),
        ).skip(9) + gossip::header_writer()(wire::canonical_certified(x)),
{
    let f = |c: CertifiedView| wire::canonical_certified(c);
    let w = gossip::header_writer();
    let (a, b) = (xs.map_values(f), xs.push(x).map_values(f));
    assert(b =~= a.push(f(x)));
    parse::lemma_joined_push(a, f(x), w);
    lemma_behind_long_count(7, a.len() as u64, parse::joined(a, w));
    lemma_behind_long_count(7, b.len() as u64, parse::joined(b, w));
}

proof fn lemma_one_more_ask(xs: Seq<(ProofKind, u64)>, x: (ProofKind, u64))
    ensures
        gossip::encoded_msg(MsgView::GetProof { items: xs.push(x) }).skip(5) == gossip::encoded_msg(
            MsgView::GetProof { items: xs },
        ).skip(5) + gossip::ask_writer()(x),
{
    let w = gossip::ask_writer();
    parse::lemma_joined_push(xs, x, w);
    lemma_behind_short_count(8, xs.len() as u32, parse::joined(xs, w));
    lemma_behind_short_count(8, xs.push(x).len() as u32, parse::joined(xs.push(x), w));
}

proof fn lemma_one_more_slot(xs: Seq<Option<EntryView>>, x: Option<EntryView>)
    ensures
        gossip::encoded_msg(MsgView::Proof { items: xs.push(x) }).skip(5) == gossip::encoded_msg(
            MsgView::Proof { items: xs },
        ).skip(5) + gossip::reply_writer()(gossip::canonical_reply(x)),
{
    let f = |y: Option<EntryView>| gossip::canonical_reply(y);
    let w = gossip::reply_writer();
    let (a, b) = (xs.map_values(f), xs.push(x).map_values(f));
    assert(b =~= a.push(f(x)));
    parse::lemma_joined_push(a, f(x), w);
    lemma_behind_short_count(9, a.len() as u32, parse::joined(a, w));
    lemma_behind_short_count(9, b.len() as u32, parse::joined(b, w));
}

// --- the state ----------------------------------------------------------------

/// An account's leaf is its id, its key, its balance and its totals.
pub proof fn law_account_leaf_layout(id: u64, a: Account)
    ensures
        ({
            let s = roots::account_leaf(id, a);
            &&& s.len() == 88
            &&& bytes::word64(s) == id
            &&& s.subrange(8, 40) == a.pubkey@
            &&& bytes::word64(s.skip(40)) == a.balance
            &&& bytes::word64(s.skip(48)) == a.staked_total
            &&& bytes::word64(s.skip(56)) == a.earned_total
            &&& bytes::word64(s.skip(64)) == a.slashed_total
            &&& bytes::word64(s.skip(72)) == a.submissions
            &&& bytes::word64(s.skip(80)) == a.accepted
        }),
{
    broadcast use codec::lemma_regroup;

    let s = roots::account_leaf(id, a);
    let nothing = Seq::<u8>::empty();
    let s6 = bytes::be64(a.accepted) + nothing;
    let s5 = bytes::be64(a.submissions) + s6;
    let s4 = bytes::be64(a.slashed_total) + s5;
    let s3 = bytes::be64(a.earned_total) + s4;
    let s2 = bytes::be64(a.staked_total) + s3;
    let s1 = bytes::be64(a.balance) + s2;
    let s0 = a.pubkey@ + s1;
    assert(s + nothing =~= s);
    assert(s.skip(0) =~= s);
    assert(s == bytes::be64(id) + s0);
    lemma_word64_at(s, 0, id, s0);
    lemma_part_at(s, 8, a.pubkey@, s1);
    lemma_word64_at(s, 40, a.balance, s2);
    lemma_word64_at(s, 48, a.staked_total, s3);
    lemma_word64_at(s, 56, a.earned_total, s4);
    lemma_word64_at(s, 64, a.slashed_total, s5);
    lemma_word64_at(s, 72, a.submissions, s6);
    lemma_word64_at(s, 80, a.accepted, nothing);
}

/// A reputation's leaf is an id and the bits of the reputation; a graph node's is its
/// place, its embedding and its domain.
pub proof fn law_other_leaf_layouts(id: u64, reputation: u32, n: GraphNode)
    ensures
        ({
            let s = roots::standing_leaf(id, reputation);
            &&& s.len() == 12
            &&& bytes::word64(s) == id
            &&& bytes::word32(s.skip(8)) == ieee::canonical(reputation)
        }),
        ({
            let s = roots::graph_leaf(n);
            &&& s.len() == 268
            &&& bytes::word64(s) == n.node_id
            &&& s.subrange(8, 264) == parse::emb_bytes(parse::canonical_emb(n.embedding))
            &&& bytes::word32(s.skip(264)) == n.domain
        }),
{
    broadcast use codec::lemma_regroup;

    let nothing = Seq::<u8>::empty();
    let s = roots::standing_leaf(id, reputation);
    let r = bytes::be32(ieee::canonical(reputation));
    assert(r + nothing =~= r);
    assert(s.skip(0) =~= s);
    lemma_word64_at(s, 0, id, r);
    lemma_word32_at(s, 8, ieee::canonical(reputation), nothing);
    let e = parse::canonical_emb(n.embedding);
    let g = roots::graph_leaf(n);
    let d = bytes::be32(n.domain);
    assert(d + nothing =~= d);
    assert(g.skip(0) =~= g);
    lemma_word64_at(g, 0, n.node_id, parse::emb_bytes(e) + d);
    law_embedding_layout(e, 0);
    lemma_part_at(g, 8, parse::emb_bytes(e), d);
    lemma_word32_at(g, 264, n.domain, nothing);
}

/// The leaves of the state's Merkle tree: all accounts in order of id, then all
/// reputations in order of id, then the graph nodes in order of insertion.
pub proof fn law_leaves_stand_in_order(st: StateView)
    requires
        st.accounts.dom().finite(),
        st.reviewers.dom().finite(),
    ensures
        ({
            let leaves = roots::leaf_digests(st);
            let (ids, who) = (roots::account_ids(st), roots::standing_ids(st));
            &&& ordered::lists(ids, st.accounts.dom())
            &&& ordered::lists(who, st.reviewers.dom())
            &&& leaves.len() == ids.len() + who.len() + st.graph.len()
            &&& forall|i: int|
                0 <= i < ids.len() ==> leaves[i] == merkle::leaf_digest(
                    roots::account_leaf(#[trigger] ids[i], st.accounts[ids[i]]),
                )
            &&& forall|i: int|
                0 <= i < who.len() ==> leaves[ids.len() + i] == merkle::leaf_digest(
                    roots::standing_leaf(#[trigger] who[i], st.reviewers[who[i]]),
                )
            &&& forall|i: int|
                0 <= i < st.graph.len() ==> leaves[ids.len() + who.len() + i]
                    == merkle::leaf_digest(roots::graph_leaf(#[trigger] st.graph[i]))
        }),
{
    ordered::lemma_has_listing(st.accounts.dom());
    ordered::lemma_has_listing(st.reviewers.dom());
}

/// A proof is to be had of exactly what the state holds.
pub proof fn law_proofs_are_of_what_is_held(st: StateView, id: u64, index: int)
    ensures
        roots::account_path(st, id) is Some <==> st.accounts.contains_key(id),
        roots::standing_path(st, id) is Some <==> st.reviewers.contains_key(id),
        roots::graph_path(st, index) is Some <==> 0 <= index < st.graph.len(),
{
}

/// The state digest is taken of the height, the supply, the treasury, the number of
/// accounts and then the accounts in order of id, as their leaves.
pub proof fn law_state_bytes_layout(st: StateView, i: int)
    requires
        st.accounts.dom().finite(),
        roots::account_ids(st).len() <= u64::MAX,
        0 <= i < roots::account_ids(st).len(),
    ensures
        ({
            let s = roots::state_bytes(st);
            let ids = roots::account_ids(st);
            &&& bytes::word64(s) == st.height
            &&& bytes::word64(s.skip(8)) == st.supply
            &&& bytes::word64(s.skip(16)) == st.treasury
            &&& bytes::word64(s.skip(24)) == ids.len()
            &&& s.len() >= 32 + 88 * ids.len()
            &&& s.subrange(32 + 88 * i, 120 + 88 * i) == roots::account_leaf(
                ids[i],
                st.accounts[ids[i]],
            )
            &&& roots::digest_of(st) == hash::hash_of(s)
        }),
{
    let s = roots::state_bytes(st);
    let ids = roots::account_ids(st);
    let who = roots::standing_ids(st);
    let w = roots::account_writer(st);
    let list = parse::joined(ids, w);
    let standings = parse::joined(who, roots::standing_writer(st));
    let nodes = parse::joined(st.graph, roots::node_writer());
    let back = bytes::be64(who.len() as u64) + (standings + (bytes::be64(st.graph.len() as u64) + (
    nodes + roots::setting_bytes(st))));
    let s3 = list + back;
    let s2 = bytes::be64(ids.len() as u64) + s3;
    let s1 = bytes::be64(st.treasury) + s2;
    let s0 = bytes::be64(st.supply) + s1;
    commitment::lemma_regroup_ten(
        bytes::be64(st.height),
        bytes::be64(st.supply),
        bytes::be64(st.treasury),
        bytes::be64(ids.len() as u64),
        list,
        bytes::be64(who.len() as u64),
        standings,
        bytes::be64(st.graph.len() as u64),
        nodes,
        roots::setting_bytes(st),
    );
    assert(s == bytes::be64(st.height) + s0);
    assert(s.skip(0) =~= s);
    lemma_word64_at(s, 0, st.height, s0);
    lemma_word64_at(s, 8, st.supply, s1);
    lemma_word64_at(s, 16, st.treasury, s2);
    lemma_word64_at(s, 24, ids.len() as u64, s3);
    assert forall|j: int| 0 <= j < ids.len() implies w(#[trigger] ids[j]).len() == 88 by {
        law_account_leaf_layout(ids[j], st.accounts[ids[j]]);
    }
    parse::lemma_joined_at(ids, w, 88, i);
    lemma_part_at(s, 32, list, back);
    assert(s.subrange(32 + 88 * i, 120 + 88 * i) =~= list.subrange(88 * i, 88 * i + 88));
}

/// The state digest ends with the rules, the time and the validators: the emission, the
/// slashing rate, the time, the number of validators and the validators in order, as
/// their leaves.
pub proof fn law_setting_layout(st: StateView, i: int)
    requires
        st.validators.len() <= u64::MAX,
        0 <= i < st.validators.len(),
    ensures
        ({
            let s = roots::setting_bytes(st);
            let all = roots::state_bytes(st);
            &&& s.len() == 24 + 48 * st.validators.len()
            &&& bytes::word64(s) == st.base_emission_micro
            &&& bytes::word32(s.skip(8)) == st.slash_bps
            &&& bytes::word32(s.skip(12)) == ieee::canonical(st.now_days)
            &&& bytes::word64(s.skip(16)) == st.validators.len()
            &&& s.subrange(24 + 48 * i, 72 + 48 * i) == validator::validator_leaf(st.validators[i])
            &&& all.skip(all.len() - s.len()) == s
        }),
{
    let s = roots::setting_bytes(st);
    let nothing = Seq::<u8>::empty();
    let w = roots::validator_writer();
    let list = parse::joined(st.validators, w);
    let now = ieee::canonical(st.now_days);
    codec::lemma_regroup_five(
        bytes::be64(st.base_emission_micro),
        bytes::be32(st.slash_bps),
        bytes::be32(now),
        bytes::be64(st.validators.len() as u64),
        list,
        nothing,
    );
    let s3 = list + nothing;
    let s2 = bytes::be64(st.validators.len() as u64) + s3;
    let s1 = bytes::be32(now) + s2;
    let s0 = bytes::be32(st.slash_bps) + s1;
    assert(s + nothing =~= s);
    assert(s.skip(0) =~= s);
    lemma_word64_at(s, 0, st.base_emission_micro, s0);
    lemma_word32_at(s, 8, st.slash_bps, s1);
    lemma_word32_at(s, 12, now, s2);
    lemma_word64_at(s, 16, st.validators.len() as u64, s3);
    assert forall|j: int| 0 <= j < st.validators.len() implies w(
        #[trigger] st.validators[j],
    ).len() == 48 by {
        law_validator_leaf_layout(st.validators[j]);
    }
    parse::lemma_joined_at(st.validators, w, 48, i);
    lemma_part_at(s, 24, list, nothing);
    assert(s.subrange(24 + 48 * i, 72 + 48 * i) =~= list.subrange(48 * i, 48 * i + 48));
    let all = roots::state_bytes(st);
    assert(all.skip(all.len() - s.len()) =~= s);
}

// --- votes, certificates, requests and entries --------------------------------

/// A voter signs the id, the height, the round, the block's hash and the step, in this
/// order; a vote is what was signed, then the signature.
pub proof fn law_vote_layout(v: Vote)
    ensures
        ({
            let s = consensus::vote_bytes(v);
            &&& s.len() == 117
            &&& bytes::word64(s) == v.validator
            &&& bytes::word64(s.skip(8)) == v.height
            &&& bytes::word32(s.skip(16)) == v.round
            &&& s.subrange(20, 52) == v.block_hash@
            &&& s[52] == if v.vote_type is Precommit {
                1u8
            } else {
                0u8
            }
            &&& s.skip(53) == v.signature@
            &&& s.take(53) == consensus::vote_signing_bytes(v)
        }),
{
    broadcast use codec::lemma_regroup;

    let s = consensus::vote_bytes(v);
    let kind = seq![consensus::vote_type_byte(v.vote_type)];
    let s3 = kind + v.signature@;
    let s2 = v.block_hash@ + s3;
    let s1 = bytes::be32(v.round) + s2;
    let s0 = bytes::be64(v.height) + s1;
    assert(s.skip(0) =~= s);
    assert(s == bytes::be64(v.validator) + s0);
    lemma_word64_at(s, 0, v.validator, s0);
    lemma_word64_at(s, 8, v.height, s1);
    lemma_word32_at(s, 16, v.round, s2);
    lemma_part_at(s, 20, v.block_hash@, s3);
    lemma_part_at(s, 52, kind, v.signature@);
    assert(s.subrange(52, 53)[0] == s[52]);
    let body = consensus::vote_signing_bytes(v);
    assert(s == body + v.signature@);
    assert(s.skip(53).len() == 64);
    assert(s.take(53) =~= body);
}

/// A certificate is its height, its round, the block's hash, the number of its votes and
/// its votes in order.
pub proof fn law_commit_layout(c: CommitView, i: int)
    requires
        c.precommits.len() <= u64::MAX,
        0 <= i < c.precommits.len(),
    ensures
        ({
            let s = wire::commit_bytes(c);
            &&& s.len() == 52 + 117 * c.precommits.len()
            &&& bytes::word64(s) == c.height
            &&& bytes::word32(s.skip(8)) == c.round
            &&& s.subrange(12, 44) == c.block_hash@
            &&& bytes::word64(s.skip(44)) == c.precommits.len()
            &&& s.subrange(52 + 117 * i, 169 + 117 * i) == consensus::vote_bytes(c.precommits[i])
        }),
{
    let s = wire::commit_bytes(c);
    let nothing = Seq::<u8>::empty();
    let w = wire::vote_writer();
    let list = parse::joined(c.precommits, w);
    codec::lemma_regroup_five(
        bytes::be64(c.height),
        bytes::be32(c.round),
        c.block_hash@,
        bytes::be64(c.precommits.len() as u64),
        list,
        nothing,
    );
    let s3 = list + nothing;
    let s2 = bytes::be64(c.precommits.len() as u64) + s3;
    let s1 = c.block_hash@ + s2;
    let s0 = bytes::be32(c.round) + s1;
    assert(s + nothing =~= s);
    assert(s.skip(0) =~= s);
    lemma_word64_at(s, 0, c.height, s0);
    lemma_word32_at(s, 8, c.round, s1);
    lemma_part_at(s, 12, c.block_hash@, s2);
    lemma_word64_at(s, 44, c.precommits.len() as u64, s3);
    assert forall|j: int| 0 <= j < c.precommits.len() implies w(
        #[trigger] c.precommits[j],
    ).len() == 117 by {
        law_vote_layout(c.precommits[j]);
    }
    parse::lemma_joined_at(c.precommits, w, 117, i);
    lemma_part_at(s, 52, list, nothing);
    assert(s.subrange(52 + 117 * i, 169 + 117 * i) =~= list.subrange(117 * i, 117 * i + 117));
}

/// A piece of evidence is its two votes, and its hash is over them.
pub proof fn law_evidence_layout(e: SlashEvidence)
    ensures
        ({
            let s = consensus::evidence_bytes(e);
            &&& s.len() == 234
            &&& s.take(117) == consensus::vote_bytes(e.vote_a)
            &&& s.skip(117) == consensus::vote_bytes(e.vote_b)
            &&& consensus::evidence_hash(e) == hash::hash_of(s)
        }),
{
    law_vote_layout(e.vote_a);
    law_vote_layout(e.vote_b);
    let s = consensus::evidence_bytes(e);
    assert(s.take(117) =~= consensus::vote_bytes(e.vote_a));
    assert(s.skip(117) =~= consensus::vote_bytes(e.vote_b));
}

/// A bonding request is the account, the kind, the amount and the signature over these;
/// its hash is over all of it.
pub proof fn law_stake_op_layout(op: StakeOp)
    ensures
        ({
            let s = consensus::stake_op_bytes(op);
            &&& s.len() == 81
            &&& bytes::word64(s) == op.account
            &&& s[8] == if op.kind is Unbond {
                1u8
            } else {
                0u8
            }
            &&& bytes::word64(s.skip(9)) == op.amount
            &&& s.skip(17) == op.signature@
            &&& s.take(17) == consensus::stake_op_signing_bytes(op)
            &&& consensus::stake_op_hash(op) == hash::hash_of(s)
        }),
{
    broadcast use codec::lemma_regroup;

    let s = consensus::stake_op_bytes(op);
    let kind = seq![consensus::bond_kind_byte(op.kind)];
    let s1 = bytes::be64(op.amount) + op.signature@;
    let s0 = kind + s1;
    assert(s.skip(0) =~= s);
    assert(s == bytes::be64(op.account) + s0);
    lemma_word64_at(s, 0, op.account, s0);
    lemma_part_at(s, 8, kind, s1);
    assert(s.subrange(8, 9)[0] == s[8]);
    lemma_word64_at(s, 9, op.amount, op.signature@);
    let body = consensus::stake_op_signing_bytes(op);
    assert(s == body + op.signature@);
    assert(s.skip(17).len() == 64);
    assert(s.take(17) =~= body);
}

/// A validator's leaf is its id, its key and its power.
pub proof fn law_validator_leaf_layout(v: Validator)
    ensures
        ({
            let s = validator::validator_leaf(v);
            &&& s.len() == 48
            &&& bytes::word64(s) == v.id
            &&& s.subrange(8, 40) == v.pubkey@
            &&& bytes::word64(s.skip(40)) == v.power
        }),
{
    broadcast use codec::lemma_regroup;

    let s = validator::validator_leaf(v);
    let nothing = Seq::<u8>::empty();
    let power = bytes::be64(v.power);
    assert(power + nothing =~= power);
    assert(s.skip(0) =~= s);
    assert(s == bytes::be64(v.id) + (v.pubkey@ + power));
    lemma_word64_at(s, 0, v.id, v.pubkey@ + power);
    lemma_part_at(s, 8, v.pubkey@, power);
    lemma_word64_at(s, 40, v.power, nothing);
}

/// A certified header is the height, the hash of the predecessor, the time, the block's
/// hash and then the certificate.
pub proof fn law_certified_header_layout(c: CertifiedView)
    ensures
        ({
            let s = wire::certified_bytes(c);
            &&& s.len() >= 76
            &&& bytes::word64(s) == c.header.height
            &&& s.subrange(8, 40) == c.header.prev_hash@
            &&& bytes::word32(s.skip(40)) == c.header.timestamp_days
            &&& s.subrange(44, 76) == c.header.block_hash@
            &&& s.skip(76) == wire::commit_bytes(c.cert)
        }),
{
    broadcast use codec::lemma_regroup;

    let s = wire::certified_bytes(c);
    let h = c.header;
    let cert = wire::commit_bytes(c.cert);
    let s2 = h.block_hash@ + cert;
    let s1 = bytes::be32(h.timestamp_days) + s2;
    let s0 = h.prev_hash@ + s1;
    assert(s.skip(0) =~= s);
    assert(s == bytes::be64(h.height) + s0);
    lemma_word64_at(s, 0, h.height, s0);
    lemma_part_at(s, 8, h.prev_hash@, s1);
    lemma_word32_at(s, 40, h.timestamp_days, s2);
    lemma_part_at(s, 44, h.block_hash@, cert);
}

/// A path is the number of its steps, then for each step the side of the sibling and the
/// sibling.
pub proof fn law_path_layout(p: Seq<Step>, i: int)
    requires
        p.len() <= u64::MAX,
        0 <= i < p.len(),
    ensures
        ({
            let s = wire::path_bytes(p);
            &&& s.len() == 8 + 33 * p.len()
            &&& bytes::word64(s) == p.len()
            &&& s[8 + 33 * i] == if p[i] is Right {
                1u8
            } else {
                0u8
            }
            &&& s.subrange(9 + 33 * i, 41 + 33 * i) == match p[i] {
                Step::Left(d) => d@,
                Step::Right(d) => d@,
            }
        }),
{
    let s = wire::path_bytes(p);
    let w = wire::step_writer();
    let list = parse::joined(p, w);
    assert(s.skip(0) =~= s);
    lemma_word64_at(s, 0, p.len() as u64, list);
    assert forall|j: int| 0 <= j < p.len() implies w(#[trigger] p[j]).len() == 33 by {}
    parse::lemma_joined_at(p, w, 33, i);
    let part = w(p[i]);
    assert(list.subrange(33 * i, 33 * i + 33) == part);
    assert(s.skip(8) == list);
    assert forall|k: int| 0 <= k < 33 implies s[8 + 33 * i + k] == #[trigger] part[k] by {
        assert(part[k] == list.subrange(33 * i, 33 * i + 33)[k]);
        assert(s.skip(8)[33 * i + k] == list[33 * i + k]);
    }
    assert(s[8 + 33 * i + 0] == part[0]);
    let sibling = match p[i] {
        Step::Left(d) => d@,
        Step::Right(d) => d@,
    };
    assert forall|k: int| 0 <= k < 32 implies s.subrange(9 + 33 * i, 41 + 33 * i)[k]
        == #[trigger] sibling[k] by {
        assert(part[k + 1] == sibling[k]);
        assert(s[8 + 33 * i + (k + 1)] == part[k + 1]);
    }
    assert(s.subrange(9 + 33 * i, 41 + 33 * i) =~= sibling);
}

/// Every proved entry begins with the byte of its kind.
pub proof fn law_entries_begin_with_their_kind(e: EntryView)
    ensures
        wire::entry_bytes(e)[0] == match e {
            EntryView::Account { .. } => 0u8,
            EntryView::Reviewer { .. } => 1u8,
            EntryView::Validator { .. } => 2u8,
            EntryView::GraphNode { .. } => 3u8,
        },
        bytes::word64(wire::entry_bytes(e).skip(1)) == e.id(),
{
    broadcast use codec::lemma_regroup;

    let s = wire::entry_bytes(e);
    match e {
        EntryView::Account { id, account, path } => {
            let body = roots::account_leaf(id, account);
            assert(s.skip(1) =~= body + wire::path_bytes(path));
            law_account_leaf_layout(id, account);
            assert(s.skip(1).subrange(0, 88) =~= body);
            lemma_word64_within(s.skip(1), 0, body);
            assert(s.skip(1).skip(0) =~= s.skip(1));
        },
        EntryView::Reviewer { id, reputation, path } => {
            let rest = bytes::be32(reputation) + wire::path_bytes(path);
            assert(s.skip(1) =~= bytes::be64(id) + rest);
            bytes::lemma_be64_word64(id, rest);
        },
        EntryView::Validator { id, validator, path } => {
            let rest = validator::validator_leaf(validator) + wire::path_bytes(path);
            assert(s.skip(1) =~= bytes::be64(id) + rest);
            bytes::lemma_be64_word64(id, rest);
        },
        EntryView::GraphNode { node_id, graph_node, path } => {
            let rest = wire::plain_node_bytes(graph_node) + wire::path_bytes(path);
            assert(s.skip(1) =~= bytes::be64(node_id) + rest);
            bytes::lemma_be64_word64(node_id, rest);
        },
    }
}

// --- refusals -----------------------------------------------------------------

/// A byte that stands for nothing is refused and named, wherever a kind is read.
pub proof fn law_unknown_kinds_are_refused(b: u8, rest: Seq<u8>)
    ensures
        b > 1 ==> wire::parse_vote_type(seq![b] + rest) == Err::<(VoteType, Seq<u8>), CodecError>(
            CodecError::BadEnum(b as u32),
        ),
        b > 1 ==> wire::parse_step(seq![b] + rest) == Err::<(Step, Seq<u8>), CodecError>(
            CodecError::BadEnum(b as u32),
        ),
        b > 1 ==> gossip::parse_reply(seq![b] + rest) == Err::<
            (Option<EntryView>, Seq<u8>),
            CodecError,
        >(CodecError::BadEnum(b as u32)),
        b > 3 ==> wire::parse_entry(seq![b] + rest) == Err::<(EntryView, Seq<u8>), CodecError>(
            CodecError::BadEnum(b as u32),
        ),
        b > 3 ==> gossip::parse_ask(seq![b] + rest) == Err::<
            ((ProofKind, u64), Seq<u8>),
            CodecError,
        >(CodecError::BadEnum(b as u32)),
        b > 9 ==> gossip::parse_msg(seq![b] + rest) == Err::<MsgView, CodecError>(
            CodecError::BadEnum(b as u32),
        ),
{
    assert((seq![b] + rest)[0] == b);
}

/// A batch of more than the most that is ever sent is refused, and its count named.
pub proof fn law_large_batches_are_refused(n: u64, k: u32, rest: Seq<u8>)
    ensures
        n > 256 ==> gossip::parse_msg(seq![2u8] + (bytes::be64(n) + rest)) == Err::<
            MsgView,
            CodecError,
        >(CodecError::TooManyItems(n)),
        n > 256 ==> gossip::parse_msg(seq![7u8] + (bytes::be64(n) + rest)) == Err::<
            MsgView,
            CodecError,
        >(CodecError::TooManyItems(n)),
        k > 32 ==> gossip::parse_msg(seq![8u8] + (bytes::be32(k) + rest)) == Err::<
            MsgView,
            CodecError,
        >(CodecError::TooManyItems(k as u64)),
        k > 32 ==> gossip::parse_msg(seq![9u8] + (bytes::be32(k) + rest)) == Err::<
            MsgView,
            CodecError,
        >(CodecError::TooManyItems(k as u64)),
{
    bytes::lemma_be64_word64(n, rest);
    bytes::lemma_be32_word32(k, rest);
    let a = bytes::be64(n) + rest;
    let b = bytes::be32(k) + rest;
    assert((seq![2u8] + a).skip(1) =~= a);
    assert((seq![7u8] + a).skip(1) =~= a);
    assert((seq![8u8] + b).skip(1) =~= b);
    assert((seq![9u8] + b).skip(1) =~= b);
}

/// A log that ends inside a length or inside a record is refused for that; one with a
/// whole record in front is judged by the record first.
pub proof fn law_logs_are_read_record_by_record(s: Seq<u8>)
    ensures
        s.len() == 0 ==> store::parse_log(s) == Ok::<Seq<BlockView>, LogError>(Seq::empty()),
        0 < s.len() < 4 ==> store::parse_log(s) == Err::<Seq<BlockView>, LogError>(
            LogError::TruncatedLength,
        ),
        s.len() >= 4 && s.len() < 4 + bytes::word32(s) ==> store::parse_log(s) == Err::<
            Seq<BlockView>,
            LogError,
        >(LogError::TruncatedRecord),
        s.len() >= 4 + bytes::word32(s) && s.len() >= 4 ==> (match parse::parse_whole(
            codec::parse_block(s.subrange(4, 4 + bytes::word32(s))),
        ) {
            Err(e) => store::parse_log(s) == Err::<Seq<BlockView>, LogError>(LogError::Codec(e)),
            Ok(b) => (store::parse_log(s) matches Ok(bs) ==> bs.len() > 0 && bs[0] == b
                && store::parse_log(s.skip(4 + bytes::word32(s))) == Ok::<
                Seq<BlockView>,
                LogError,
            >(bs.skip(1))) && (store::parse_log(s) matches Err(e) ==> store::parse_log(
                s.skip(4 + bytes::word32(s)),
            ) == Err::<Seq<BlockView>, LogError>(e)),
        }),
{
    if s.len() >= 4 && s.len() >= 4 + bytes::word32(s) {
        if let Ok(bs) = store::parse_log(s) {
            let rest = store::parse_log(s.skip(4 + bytes::word32(s)));
            assert(rest is Ok);
            assert(bs.skip(1) =~= rest->Ok_0);
        }
    }
}

} // verus!
