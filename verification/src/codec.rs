//! The canonical encoding of transactions and blocks.
//!
//! The same bytes are hashed and stored, so a block's hash covers exactly what was
//! persisted. Integers are big-endian, lists carry their length in front.

use vstd::prelude::*;

use crate::bytes;
use crate::bytes::{push_be32, push_be64, push_bytes};
use crate::graph::DIM;
use crate::ieee;
use crate::ieee::canonicalize;
use crate::parse;
use crate::parse::{CodecError, Dec, Parsed, Parser, MAX_ITEMS};
use crate::tx::{Block, BlockView, Review, SubmissionTx, TxView};
use crate::tx;
use crate::{Embedding, Sig};

verus! {

// --- what the bytes are -------------------------------------------------------

/// The bytes of one score.
pub open spec fn review_bytes(r: Review) -> Seq<u8> {
    bytes::be64(r.reviewer) + bytes::be32(r.score)
}

pub open spec fn review_writer() -> spec_fn(Review) -> Seq<u8> {
    |r: Review| review_bytes(r)
}

/// The bytes of a transaction up to its signature.
pub open spec fn tx_body_bytes(t: TxView) -> Seq<u8> {
    bytes::be64(t.author) + parse::emb_bytes(t.embedding) + bytes::be32(t.domain) + bytes::be64(
        t.stake,
    ) + bytes::be64(t.reviews.len() as u64) + parse::joined(t.reviews, review_writer())
        + bytes::be32(t.repl_success) + bytes::be32(t.repl_total) + bytes::be32(t.timestamp_days)
}

/// The bytes of a transaction with its signature.
pub open spec fn tx_bytes(t: TxView) -> Seq<u8> {
    tx_body_bytes(t) + t.signature@
}

pub open spec fn tx_writer() -> spec_fn(TxView) -> Seq<u8> {
    |t: TxView| tx_bytes(t)
}

/// The bytes of a block.
pub open spec fn block_bytes(b: BlockView) -> Seq<u8> {
    bytes::be64(b.height) + b.prev_hash@ + bytes::be32(b.timestamp_days) + bytes::be64(
        b.txs.len() as u64,
    ) + parse::joined(b.txs, tx_writer())
}

/// A score with a NaN made canonical.
pub open spec fn canonical_review(r: Review) -> Review {
    Review { reviewer: r.reviewer, score: ieee::canonical(r.score) }
}

/// A transaction with every NaN made canonical.
pub open spec fn canonical_tx(t: TxView) -> TxView {
    TxView {
        embedding: parse::canonical_emb(t.embedding),
        reviews: t.reviews.map_values(|r: Review| canonical_review(r)),
        timestamp_days: ieee::canonical(t.timestamp_days),
        ..t
    }
}

/// A block with every NaN made canonical.
pub open spec fn canonical_block(b: BlockView) -> BlockView {
    BlockView {
        timestamp_days: ieee::canonical(b.timestamp_days),
        txs: b.txs.map_values(|t: TxView| canonical_tx(t)),
        ..b
    }
}

/// The bytes that the author of a transaction signs: everything but the signature.
pub open spec fn signing_bytes(t: TxView) -> Seq<u8> {
    tx_body_bytes(canonical_tx(t))
}

/// The canonical bytes of a transaction.
pub open spec fn encoded_tx(t: TxView) -> Seq<u8> {
    tx_bytes(canonical_tx(t))
}

/// The canonical bytes of a block.
pub open spec fn encoded_block(b: BlockView) -> Seq<u8> {
    block_bytes(canonical_block(b))
}

// --- what bytes mean ----------------------------------------------------------

/// One score.
pub open spec fn parse_review(s: Seq<u8>) -> Parsed<Review> {
    match parse::parse_u64(s) {
        Err(e) => Err(e),
        Ok((reviewer, s1)) => match parse::parse_u32(s1) {
            Err(e) => Err(e),
            Ok((score, s2)) => Ok((Review { reviewer, score }, s2)),
        },
    }
}

pub open spec fn review_parser() -> Parser<Review> {
    |s: Seq<u8>| parse_review(s)
}

/// A counted list of scores.
pub open spec fn parse_reviews(s: Seq<u8>) -> Parsed<Seq<Review>> {
    match parse::parse_count(s) {
        Err(e) => Err(e),
        Ok((n, s1)) => parse::parse_list(n as nat, s1, review_parser()),
    }
}

/// One signed transaction.
pub open spec fn parse_tx(s: Seq<u8>) -> Parsed<TxView> {
    match parse::parse_u64(s) {
        Err(e) => Err(e),
        Ok((author, s1)) => match parse::parse_emb(s1) {
            Err(e) => Err(e),
            Ok((embedding, s2)) => match parse::parse_u32(s2) {
                Err(e) => Err(e),
                Ok((domain, s3)) => match parse::parse_u64(s3) {
                    Err(e) => Err(e),
                    Ok((stake, s4)) => match parse_reviews(s4) {
                        Err(e) => Err(e),
                        Ok((reviews, s5)) => match parse::parse_u32(s5) {
                            Err(e) => Err(e),
                            Ok((repl_success, s6)) => match parse::parse_u32(s6) {
                                Err(e) => Err(e),
                                Ok((repl_total, s7)) => match parse::parse_u32(s7) {
                                    Err(e) => Err(e),
                                    Ok((timestamp_days, s8)) => match parse::parse_array::<64>(
                                        s8,
                                    ) {
                                        Err(e) => Err(e),
                                        Ok((signature, s9)) => Ok(
                                            (
                                                TxView {
                                                    author,
                                                    embedding,
                                                    domain,
                                                    stake,
                                                    reviews,
                                                    repl_success,
                                                    repl_total,
                                                    timestamp_days,
                                                    signature,
                                                },
                                                s9,
                                            ),
                                        ),
                                    },
                                },
                            },
                        },
                    },
                },
            },
        },
    }
}

pub open spec fn tx_parser() -> Parser<TxView> {
    |s: Seq<u8>| parse_tx(s)
}

/// One block.
pub open spec fn parse_block(s: Seq<u8>) -> Parsed<BlockView> {
    match parse::parse_u64(s) {
        Err(e) => Err(e),
        Ok((height, s1)) => match parse::parse_array::<32>(s1) {
            Err(e) => Err(e),
            Ok((prev_hash, s2)) => match parse::parse_u32(s2) {
                Err(e) => Err(e),
                Ok((timestamp_days, s3)) => match parse::parse_count(s3) {
                    Err(e) => Err(e),
                    Ok((n, s4)) => match parse::parse_list(n as nat, s4, tx_parser()) {
                        Err(e) => Err(e),
                        Ok((txs, s5)) => Ok(
                            (BlockView { height, prev_hash, timestamp_days, txs }, s5),
                        ),
                    },
                },
            },
        },
    }
}

/// Whether a transaction's list is short enough to be decoded.
pub open spec fn tx_within_limits(t: TxView) -> bool {
    t.reviews.len() <= MAX_ITEMS
}

/// Whether a block's lists are short enough to be decoded.
pub open spec fn block_within_limits(b: BlockView) -> bool {
    &&& b.txs.len() <= MAX_ITEMS
    &&& forall|i: int| 0 <= i < b.txs.len() ==> tx_within_limits(#[trigger] b.txs[i])
}

/// Whether a transaction's list can be counted in a 64-bit word, as every list in
/// memory can.
pub open spec fn tx_countable(t: TxView) -> bool {
    t.reviews.len() <= u64::MAX
}

/// Whether a block's lists can be counted in 64-bit words, as all lists in memory can.
pub open spec fn block_countable(b: BlockView) -> bool {
    &&& b.txs.len() <= u64::MAX
    &&& forall|i: int| 0 <= i < b.txs.len() ==> tx_countable(#[trigger] b.txs[i])
}

// --- laws ---------------------------------------------------------------------

/// Concatenation is associative.
pub broadcast proof fn lemma_regroup(a: Seq<u8>, b: Seq<u8>, c: Seq<u8>)
    ensures
        #[trigger] ((a + b) + c) == a + (b + c),
{
    assert((a + b) + c =~= a + (b + c));
}

pub proof fn lemma_regroup_five(
    a: Seq<u8>,
    b: Seq<u8>,
    c: Seq<u8>,
    d: Seq<u8>,
    e: Seq<u8>,
    rest: Seq<u8>,
)
    ensures
        a + b + c + d + e + rest == a + (b + (c + (d + (e + rest)))),
{
    broadcast use lemma_regroup;

}

/// The signature is not among the bytes that are signed.
pub proof fn lemma_signature_is_not_signed(t: TxView, signature: Sig)
    ensures
        signing_bytes(TxView { signature, ..t }) == signing_bytes(t),
{
}

proof fn lemma_review_list_read_back(rs: Seq<Review>, rest: Seq<u8>)
    ensures
        parse::parse_list(
            rs.len(),
            parse::joined(rs, review_writer()) + rest,
            review_parser(),
        ) == Ok::<(Seq<Review>, Seq<u8>), CodecError>((rs, rest)),
{
    assert forall|i: int, after: Seq<u8>|
        0 <= i < rs.len() implies #[trigger] review_parser()(review_writer()(rs[i]) + after)
        == Ok::<(Review, Seq<u8>), CodecError>((rs[i], after)) by {
        let r = rs[i];
        lemma_regroup(bytes::be64(r.reviewer), bytes::be32(r.score), after);
        bytes::lemma_be64_word64(r.reviewer, bytes::be32(r.score) + after);
        bytes::lemma_be32_word32(r.score, after);
    }
    parse::lemma_list_read_back(rs, rest, review_writer(), review_parser());
}

proof fn lemma_reviews_read_back(rs: Seq<Review>, rest: Seq<u8>)
    requires
        rs.len() <= MAX_ITEMS,
    ensures
        parse_reviews(bytes::be64(rs.len() as u64) + (parse::joined(rs, review_writer()) + rest))
            == Ok::<(Seq<Review>, Seq<u8>), CodecError>((rs, rest)),
{
    lemma_review_list_read_back(rs, rest);
    bytes::lemma_be64_word64(rs.len() as u64, parse::joined(rs, review_writer()) + rest);
}

/// Bytes that begin with a transaction tell the transaction, however long its list.
proof fn lemma_tx_tells(a: TxView, b: TxView, ra: Seq<u8>, rb: Seq<u8>)
    requires
        tx_countable(a),
        tx_countable(b),
        tx_bytes(a) + ra == tx_bytes(b) + rb,
    ensures
        a == b,
        ra == rb,
{
    broadcast use lemma_regroup;

    let (a9, b9) = (a.signature@ + ra, b.signature@ + rb);
    let (a8, b8) = (bytes::be32(a.timestamp_days) + a9, bytes::be32(b.timestamp_days) + b9);
    let (a7, b7) = (bytes::be32(a.repl_total) + a8, bytes::be32(b.repl_total) + b8);
    let (a6, b6) = (bytes::be32(a.repl_success) + a7, bytes::be32(b.repl_success) + b7);
    let a5 = parse::joined(a.reviews, review_writer()) + a6;
    let b5 = parse::joined(b.reviews, review_writer()) + b6;
    let a4 = bytes::be64(a.reviews.len() as u64) + a5;
    let b4 = bytes::be64(b.reviews.len() as u64) + b5;
    let (a3, b3) = (bytes::be64(a.stake) + a4, bytes::be64(b.stake) + b4);
    let (a2, b2) = (bytes::be32(a.domain) + a3, bytes::be32(b.domain) + b3);
    let a1 = parse::emb_bytes(a.embedding) + a2;
    let b1 = parse::emb_bytes(b.embedding) + b2;
    assert(tx_bytes(a) + ra == bytes::be64(a.author) + a1);
    assert(tx_bytes(b) + rb == bytes::be64(b.author) + b1);
    parse::lemma_cut_word(a.author, b.author, a1, b1);
    parse::lemma_emb_read_back(a.embedding, a2);
    parse::lemma_emb_read_back(b.embedding, b2);
    bytes::lemma_be32_word32(a.domain, a3);
    bytes::lemma_be32_word32(b.domain, b3);
    parse::lemma_cut_word(a.stake, b.stake, a4, b4);
    parse::lemma_cut_word(a.reviews.len() as u64, b.reviews.len() as u64, a5, b5);
    lemma_review_list_read_back(a.reviews, a6);
    lemma_review_list_read_back(b.reviews, b6);
    bytes::lemma_be32_word32(a.repl_success, a7);
    bytes::lemma_be32_word32(b.repl_success, b7);
    bytes::lemma_be32_word32(a.repl_total, a8);
    bytes::lemma_be32_word32(b.repl_total, b8);
    bytes::lemma_be32_word32(a.timestamp_days, a9);
    bytes::lemma_be32_word32(b.timestamp_days, b9);
    parse::lemma_array_read_back(a.signature, ra);
    parse::lemma_array_read_back(b.signature, rb);
}

/// Bytes that begin with equally many transactions tell the transactions.
proof fn lemma_txs_tell(xs: Seq<TxView>, ys: Seq<TxView>, rx: Seq<u8>, ry: Seq<u8>)
    requires
        xs.len() == ys.len(),
        forall|i: int| 0 <= i < xs.len() ==> tx_countable(#[trigger] xs[i]),
        forall|i: int| 0 <= i < ys.len() ==> tx_countable(#[trigger] ys[i]),
        parse::joined(xs, tx_writer()) + rx == parse::joined(ys, tx_writer()) + ry,
    ensures
        xs == ys,
    decreases xs.len(),
{
    if xs.len() == 0 {
        assert(xs =~= ys);
    } else {
        let (xt, yt) = (xs.skip(1), ys.skip(1));
        let (jx, jy) = (parse::joined(xt, tx_writer()), parse::joined(yt, tx_writer()));
        lemma_regroup(tx_bytes(xs[0]), jx, rx);
        lemma_regroup(tx_bytes(ys[0]), jy, ry);
        lemma_tx_tells(xs[0], ys[0], jx + rx, jy + ry);
        lemma_txs_tell(xt, yt, rx, ry);
        assert(xs =~= seq![xs[0]] + xt);
        assert(ys =~= seq![ys[0]] + yt);
    }
}

proof fn lemma_reviews_spelled(s: Seq<u8>)
    ensures
        parse_reviews(s) matches Ok((rs, rest)) ==> rs.len() <= MAX_ITEMS && s == bytes::be64(
            rs.len() as u64,
        ) + (parse::joined(rs, review_writer()) + rest),
{
    assert forall|s: Seq<u8>|
        (#[trigger] review_parser()(s)) matches Ok((x, rest)) ==> s == review_writer()(x)
            + rest by {
        if let Ok((x, rest)) = parse_review(s) {
            bytes::lemma_word64_be64(s);
            bytes::lemma_word32_be32(s.skip(8));
            lemma_regroup(bytes::be64(x.reviewer), bytes::be32(x.score), rest);
        }
    }
    if let Ok((n, s1)) = parse::parse_count(s) {
        bytes::lemma_word64_be64(s);
        parse::lemma_list_spelled(n as nat, s1, review_writer(), review_parser());
    }
}

/// Decoding the bytes of a transaction gives the transaction back, and leaves what
/// follows it.
pub proof fn law_tx_read_back(t: TxView, rest: Seq<u8>)
    requires
        tx_within_limits(t),
    ensures
        parse_tx(tx_bytes(t) + rest) == Ok::<(TxView, Seq<u8>), CodecError>((t, rest)),
{
    broadcast use lemma_regroup;

    let s9 = rest;
    let s8 = t.signature@ + s9;
    let s7 = bytes::be32(t.timestamp_days) + s8;
    let s6 = bytes::be32(t.repl_total) + s7;
    let s5 = bytes::be32(t.repl_success) + s6;
    let s4 = bytes::be64(t.reviews.len() as u64) + (parse::joined(t.reviews, review_writer()) + s5);
    let s3 = bytes::be64(t.stake) + s4;
    let s2 = bytes::be32(t.domain) + s3;
    let s1 = parse::emb_bytes(t.embedding) + s2;
    let s0 = bytes::be64(t.author) + s1;
    assert(tx_bytes(t) + rest == s0);
    bytes::lemma_be64_word64(t.author, s1);
    parse::lemma_emb_read_back(t.embedding, s2);
    bytes::lemma_be32_word32(t.domain, s3);
    bytes::lemma_be64_word64(t.stake, s4);
    lemma_reviews_read_back(t.reviews, s5);
    bytes::lemma_be32_word32(t.repl_success, s6);
    bytes::lemma_be32_word32(t.repl_total, s7);
    bytes::lemma_be32_word32(t.timestamp_days, s8);
    parse::lemma_array_read_back(t.signature, s9);
}

/// Whatever decodes to a transaction is the bytes of that transaction, followed by
/// what was left.
pub proof fn law_tx_spelled(s: Seq<u8>)
    ensures
        parse_tx(s) matches Ok((t, rest)) ==> tx_within_limits(t) && s == tx_bytes(t) + rest,
{
    broadcast use lemma_regroup;

    if let Ok((t, rest)) = parse_tx(s) {
        bytes::lemma_word64_be64(s);
        let s1 = s.skip(8);
        parse::lemma_emb_spelled(s1);
        let s2 = parse::parse_emb(s1)->Ok_0.1;
        bytes::lemma_word32_be32(s2);
        let s3 = s2.skip(4);
        bytes::lemma_word64_be64(s3);
        let s4 = s3.skip(8);
        lemma_reviews_spelled(s4);
        let s5 = parse_reviews(s4)->Ok_0.1;
        bytes::lemma_word32_be32(s5);
        let s6 = s5.skip(4);
        bytes::lemma_word32_be32(s6);
        let s7 = s6.skip(4);
        bytes::lemma_word32_be32(s7);
        let s8 = s7.skip(4);
        parse::lemma_array_spelled::<64>(s8);
    }
}

proof fn lemma_txs_read_back(txs: Seq<TxView>, rest: Seq<u8>)
    requires
        forall|i: int| 0 <= i < txs.len() ==> tx_within_limits(#[trigger] txs[i]),
    ensures
        parse::parse_list(txs.len(), parse::joined(txs, tx_writer()) + rest, tx_parser()) == Ok::<
            (Seq<TxView>, Seq<u8>),
            CodecError,
        >((txs, rest)),
{
    assert forall|i: int, after: Seq<u8>|
        0 <= i < txs.len() implies #[trigger] tx_parser()(tx_writer()(txs[i]) + after) == Ok::<
        (TxView, Seq<u8>),
        CodecError,
    >((txs[i], after)) by {
        law_tx_read_back(txs[i], after);
    }
    parse::lemma_list_read_back(txs, rest, tx_writer(), tx_parser());
}

/// Decoding the bytes of a block gives the block back, and leaves what follows it.
pub proof fn law_block_read_back(b: BlockView, rest: Seq<u8>)
    requires
        block_within_limits(b),
    ensures
        parse_block(block_bytes(b) + rest) == Ok::<(BlockView, Seq<u8>), CodecError>((b, rest)),
{
    lemma_txs_read_back(b.txs, rest);
    let s4 = parse::joined(b.txs, tx_writer()) + rest;
    let s3 = bytes::be64(b.txs.len() as u64) + s4;
    let s2 = bytes::be32(b.timestamp_days) + s3;
    let s1 = b.prev_hash@ + s2;
    lemma_regroup_five(
        bytes::be64(b.height),
        b.prev_hash@,
        bytes::be32(b.timestamp_days),
        bytes::be64(b.txs.len() as u64),
        parse::joined(b.txs, tx_writer()),
        rest,
    );
    assert(block_bytes(b) + rest == bytes::be64(b.height) + s1);
    bytes::lemma_be64_word64(b.height, s1);
    parse::lemma_array_read_back(b.prev_hash, s2);
    bytes::lemma_be32_word32(b.timestamp_days, s3);
    bytes::lemma_be64_word64(b.txs.len() as u64, s4);
}

/// Whatever decodes to a block is the bytes of that block, followed by what was
/// left.
pub proof fn law_block_spelled(s: Seq<u8>)
    ensures
        parse_block(s) matches Ok((b, rest)) ==> block_within_limits(b) && s == block_bytes(b)
            + rest,
{
    if let Ok((b, rest)) = parse_block(s) {
        assert forall|s: Seq<u8>|
            (#[trigger] tx_parser()(s)) matches Ok((x, rest)) ==> s == tx_writer()(x) + rest by {
            law_tx_spelled(s);
        }
        bytes::lemma_word64_be64(s);
        let s1 = s.skip(8);
        parse::lemma_array_spelled::<32>(s1);
        let s2 = s1.skip(32);
        bytes::lemma_word32_be32(s2);
        let s3 = s2.skip(4);
        bytes::lemma_word64_be64(s3);
        let s4 = s3.skip(8);
        parse::lemma_list_spelled(bytes::word64(s3) as nat, s4, tx_writer(), tx_parser());
        let short = |t: TxView| tx_within_limits(t);
        assert forall|s: Seq<u8>| (#[trigger] tx_parser()(s)) matches Ok((x, _)) ==> short(x) by {
            law_tx_spelled(s);
        }
        parse::lemma_list_holds(bytes::word64(s3) as nat, s4, tx_parser(), short);
        assert forall|i: int| 0 <= i < b.txs.len() implies tx_within_limits(
            #[trigger] b.txs[i],
        ) by {
            assert(short(b.txs[i]));
        }
        lemma_regroup_five(
            bytes::be64(b.height),
            b.prev_hash@,
            bytes::be32(b.timestamp_days),
            bytes::be64(b.txs.len() as u64),
            parse::joined(b.txs, tx_writer()),
            rest,
        );
    }
}

/// Making a block canonical twice is the same as once, and the canonical bytes of
/// a block are those of its canonical form.
pub proof fn law_canonical_block_is_stable(b: BlockView)
    ensures
        canonical_block(canonical_block(b)) == canonical_block(b),
        encoded_block(canonical_block(b)) == encoded_block(b),
{
    let c = canonical_block(b);
    let d = canonical_block(c);
    assert forall|i: int| 0 <= i < b.txs.len() implies d.txs[i] == c.txs[i] by {
        law_canonical_tx_is_stable(b.txs[i]);
    }
    assert(d.txs =~= c.txs);
}

/// Making a transaction canonical twice is the same as once.
pub proof fn law_canonical_tx_is_stable(t: TxView)
    ensures
        canonical_tx(canonical_tx(t)) == canonical_tx(t),
{
    let c = canonical_tx(t);
    let d = canonical_tx(c);
    lemma_canonical_emb_is_stable(t.embedding);
    assert(d.reviews =~= c.reviews);
}

/// Making an embedding canonical twice is the same as once.
pub proof fn lemma_canonical_emb_is_stable(e: Embedding)
    ensures
        parse::canonical_emb(parse::canonical_emb(e)) == parse::canonical_emb(e),
{
    let c = e@.map_values(|x: u32| ieee::canonical(x));
    bytes::lemma_arr::<u32, DIM>(c);
    assert(parse::canonical_emb(e)@.map_values(|x: u32| ieee::canonical(x)) =~= c);
}

/// Decoding the encoding of a block gives the block with its NaNs made canonical.
pub proof fn law_block_round_trip(b: BlockView)
    requires
        block_within_limits(b),
    ensures
        parse::parse_whole(parse_block(encoded_block(b))) == Ok::<BlockView, CodecError>(
            canonical_block(b),
        ),
{
    let c = canonical_block(b);
    assert forall|i: int| 0 <= i < c.txs.len() implies tx_within_limits(#[trigger] c.txs[i]) by {
        assert(tx_within_limits(b.txs[i]));
    }
    law_block_read_back(c, Seq::empty());
    assert(block_bytes(c) + Seq::<u8>::empty() =~= block_bytes(c));
}

/// Blocks with the same encoding differ at most in which NaNs they hold.
pub proof fn law_block_encoding_is_injective(a: BlockView, b: BlockView)
    requires
        block_countable(a),
        block_countable(b),
        encoded_block(a) == encoded_block(b),
    ensures
        canonical_block(a) == canonical_block(b),
{
    let (c, d) = (canonical_block(a), canonical_block(b));
    let nothing = Seq::<u8>::empty();
    let (lc, ld) = (parse::joined(c.txs, tx_writer()), parse::joined(d.txs, tx_writer()));
    let c3 = bytes::be64(c.txs.len() as u64) + (lc + nothing);
    let d3 = bytes::be64(d.txs.len() as u64) + (ld + nothing);
    let (c2, d2) = (bytes::be32(c.timestamp_days) + c3, bytes::be32(d.timestamp_days) + d3);
    let (c1, d1) = (c.prev_hash@ + c2, d.prev_hash@ + d2);
    lemma_regroup_five(
        bytes::be64(c.height),
        c.prev_hash@,
        bytes::be32(c.timestamp_days),
        bytes::be64(c.txs.len() as u64),
        lc,
        nothing,
    );
    lemma_regroup_five(
        bytes::be64(d.height),
        d.prev_hash@,
        bytes::be32(d.timestamp_days),
        bytes::be64(d.txs.len() as u64),
        ld,
        nothing,
    );
    parse::lemma_cut_word(c.height, d.height, c1, d1);
    parse::lemma_array_read_back(c.prev_hash, c2);
    parse::lemma_array_read_back(d.prev_hash, d2);
    bytes::lemma_be32_word32(c.timestamp_days, c3);
    bytes::lemma_be32_word32(d.timestamp_days, d3);
    parse::lemma_cut_word(
        c.txs.len() as u64,
        d.txs.len() as u64,
        lc + nothing,
        ld + nothing,
    );
    assert forall|i: int| 0 <= i < c.txs.len() implies tx_countable(#[trigger] c.txs[i]) by {
        assert(tx_countable(a.txs[i]));
    }
    assert forall|i: int| 0 <= i < d.txs.len() implies tx_countable(#[trigger] d.txs[i]) by {
        assert(tx_countable(b.txs[i]));
    }
    lemma_txs_tell(c.txs, d.txs, nothing, nothing);
}

/// Decoding the encoding of a transaction gives the transaction with its NaNs made
/// canonical.
pub proof fn law_tx_round_trip(t: TxView)
    requires
        tx_within_limits(t),
    ensures
        parse::parse_whole(parse_tx(encoded_tx(t))) == Ok::<TxView, CodecError>(canonical_tx(t)),
{
    let c = canonical_tx(t);
    law_tx_read_back(c, Seq::empty());
    assert(tx_bytes(c) + Seq::<u8>::empty() =~= tx_bytes(c));
}

/// Transactions with the same encoding differ at most in which NaNs they hold.
pub proof fn law_tx_encoding_is_injective(a: TxView, b: TxView)
    requires
        tx_countable(a),
        tx_countable(b),
        encoded_tx(a) == encoded_tx(b),
    ensures
        canonical_tx(a) == canonical_tx(b),
{
    let nothing = Seq::<u8>::empty();
    lemma_tx_tells(canonical_tx(a), canonical_tx(b), nothing, nothing);
}

/// What an author signs covers every field but the signature: transactions with the
/// same signing bytes differ at most in their signatures and in which NaNs they hold.
/// So a field that is changed after signing is no longer signed for.
pub proof fn law_signing_bytes_cover_every_field(a: TxView, b: TxView)
    requires
        tx_countable(a),
        tx_countable(b),
        signing_bytes(a) == signing_bytes(b),
    ensures
        canonical_tx(a) == (TxView { signature: a.signature, ..canonical_tx(b) }),
{
    let nothing = Seq::<u8>::empty();
    let c = TxView { signature: a.signature, ..canonical_tx(b) };
    lemma_tx_tells(canonical_tx(a), c, nothing, nothing);
}

// --- encodings cut short ------------------------------------------------------

proof fn lemma_reviews_carried(s: Seq<u8>, more: Seq<u8>)
    ensures
        parse::carried(parse_reviews(s), parse_reviews(s + more), more),
{
    assert forall|s: Seq<u8>, more: Seq<u8>|
        parse::carried(review_parser()(s), #[trigger] review_parser()(s + more), more) by {
        parse::lemma_u64_carried(s, more);
        if let Ok((_, s1)) = parse::parse_u64(s) {
            parse::lemma_u32_carried(s1, more);
        }
    }
    parse::lemma_u64_carried(s, more);
    if let Ok((n, s1)) = parse::parse_count(s) {
        parse::lemma_list_carried(n as nat, s1, review_parser(), more);
    }
}

proof fn lemma_tx_carried(s: Seq<u8>, more: Seq<u8>)
    ensures
        parse::carried(parse_tx(s), parse_tx(s + more), more),
{
    parse::lemma_u64_carried(s, more);
    if let Ok((_, s1)) = parse::parse_u64(s) {
        parse::lemma_emb_carried(s1, more);
        if let Ok((_, s2)) = parse::parse_emb(s1) {
            parse::lemma_u32_carried(s2, more);
            if let Ok((_, s3)) = parse::parse_u32(s2) {
                parse::lemma_u64_carried(s3, more);
                if let Ok((_, s4)) = parse::parse_u64(s3) {
                    lemma_reviews_carried(s4, more);
                    if let Ok((_, s5)) = parse_reviews(s4) {
                        parse::lemma_u32_carried(s5, more);
                        if let Ok((_, s6)) = parse::parse_u32(s5) {
                            parse::lemma_u32_carried(s6, more);
                            if let Ok((_, s7)) = parse::parse_u32(s6) {
                                parse::lemma_u32_carried(s7, more);
                                if let Ok((_, s8)) = parse::parse_u32(s7) {
                                    parse::lemma_array_carried::<64>(s8, more);
                                }
                            }
                        }
                    }
                }
            }
        }
    }
}

proof fn lemma_block_carried(s: Seq<u8>, more: Seq<u8>)
    ensures
        parse::carried(parse_block(s), parse_block(s + more), more),
{
    assert forall|s: Seq<u8>, more: Seq<u8>|
        parse::carried(tx_parser()(s), #[trigger] tx_parser()(s + more), more) by {
        lemma_tx_carried(s, more);
    }
    parse::lemma_u64_carried(s, more);
    if let Ok((_, s1)) = parse::parse_u64(s) {
        parse::lemma_array_carried::<32>(s1, more);
        if let Ok((_, s2)) = parse::parse_array::<32>(s1) {
            parse::lemma_u32_carried(s2, more);
            if let Ok((_, s3)) = parse::parse_u32(s2) {
                parse::lemma_u64_carried(s3, more);
                if let Ok((n, s4)) = parse::parse_count(s3) {
                    parse::lemma_list_carried(n as nat, s4, tx_parser(), more);
                }
            }
        }
    }
}

/// A block's encoding cut short, wherever the cut falls, is refused because the input
/// ends.
pub proof fn law_truncated_block_is_refused(b: BlockView, n: int)
    requires
        block_within_limits(b),
        0 <= n < encoded_block(b).len(),
    ensures
        parse::parse_whole(parse_block(encoded_block(b).take(n))) == Err::<BlockView, CodecError>(
            CodecError::UnexpectedEof,
        ),
{
    let whole = encoded_block(b);
    let (cut, more) = (whole.take(n), whole.skip(n));
    assert(cut + more =~= whole);
    law_block_round_trip(b);
    lemma_block_carried(cut, more);
    parse::lemma_cut_short(parse_block(cut), parse_block(whole), more);
}

/// A transaction's encoding cut short is refused because the input ends.
pub proof fn law_truncated_tx_is_refused(t: TxView, n: int)
    requires
        tx_within_limits(t),
        0 <= n < encoded_tx(t).len(),
    ensures
        parse::parse_whole(parse_tx(encoded_tx(t).take(n))) == Err::<TxView, CodecError>(
            CodecError::UnexpectedEof,
        ),
{
    let whole = encoded_tx(t);
    let (cut, more) = (whole.take(n), whole.skip(n));
    assert(cut + more =~= whole);
    law_tx_round_trip(t);
    lemma_tx_carried(cut, more);
    parse::lemma_cut_short(parse_tx(cut), parse_tx(whole), more);
}

/// A block's encoding with anything after it is refused for its trailing bytes.
pub proof fn law_trailing_bytes_are_refused(b: BlockView, extra: Seq<u8>)
    requires
        block_within_limits(b),
        extra.len() > 0,
    ensures
        parse::parse_whole(parse_block(encoded_block(b) + extra)) == Err::<BlockView, CodecError>(
            CodecError::TrailingBytes,
        ),
{
    let c = canonical_block(b);
    assert forall|i: int| 0 <= i < c.txs.len() implies tx_within_limits(#[trigger] c.txs[i]) by {
        assert(tx_within_limits(b.txs[i]));
    }
    law_block_read_back(c, extra);
}

// --- encoding -----------------------------------------------------------------

/// A buffer that canonical bytes are appended to.
pub struct Enc(pub Vec<u8>);

impl View for Enc {
    type V = Seq<u8>;

    open spec fn view(&self) -> Seq<u8> {
        self.0@
    }
}

impl Enc {
    /// An empty buffer.
    pub fn new() -> (r: Enc)
        ensures
            r@ == Seq::<u8>::empty(),
    {
        Enc(Vec::new())
    }

    /// Appends bytes as they are.
    pub fn raw(&mut self, b: &[u8])
        ensures
            final(self)@ == old(self)@ + b@,
    {
        push_bytes(&mut self.0, b);
    }

    /// Appends a big-endian 32-bit word.
    pub fn u32(&mut self, v: u32)
        ensures
            final(self)@ == old(self)@ + bytes::be32(v),
    {
        push_be32(&mut self.0, v);
    }

    /// Appends a big-endian 64-bit word.
    pub fn u64(&mut self, v: u64)
        ensures
            final(self)@ == old(self)@ + bytes::be64(v),
    {
        push_be64(&mut self.0, v);
    }

    /// Appends the bits of a binary32 value. Every NaN is written the same way, so
    /// equal states have equal encodings.
    pub fn binary32(&mut self, v: u32)
        ensures
            final(self)@ == old(self)@ + bytes::be32(ieee::canonical(v)),
    {
        push_be32(&mut self.0, canonicalize(v));
    }

    /// Appends an embedding.
    pub fn emb(&mut self, e: &Embedding)
        ensures
            final(self)@ == old(self)@ + parse::emb_bytes(parse::canonical_emb(*e)),
    {
        let ghost c = parse::canonical_emb(*e);
        proof {
            bytes::lemma_arr::<u32, DIM>(e@.map_values(|x: u32| ieee::canonical(x)));
        }
        let mut i: usize = 0;
        assert(old(self)@ + parse::joined(c@.take(0), parse::word_bytes()) =~= old(self)@);
        while i < DIM
            invariant
                i <= DIM,
                c@ == e@.map_values(|x: u32| ieee::canonical(x)),
                self@ == old(self)@ + parse::joined(c@.take(i as int), parse::word_bytes()),
            decreases DIM - i,
        {
            proof {
                parse::lemma_joined_take(c@, i as int, parse::word_bytes());
            }
            self.binary32(e[i]);
            assert(self@ =~= old(self)@ + parse::joined(c@.take(i + 1), parse::word_bytes()));
            i += 1;
        }
        assert(c@.take(i as int) =~= c@);
    }

    /// Appends a list of scores, without its length.
    fn reviews(&mut self, rs: &Vec<Review>)
        ensures
            final(self)@ == old(self)@ + parse::joined(
                rs@.map_values(|r: Review| canonical_review(r)),
                review_writer(),
            ),
    {
        let ghost c = rs@.map_values(|r: Review| canonical_review(r));
        let mut i: usize = 0;
        assert(old(self)@ + parse::joined(c.take(0), review_writer()) =~= old(self)@);
        while i < rs.len()
            invariant
                i <= rs.len(),
                c == rs@.map_values(|r: Review| canonical_review(r)),
                self@ == old(self)@ + parse::joined(c.take(i as int), review_writer()),
            decreases rs.len() - i,
        {
            proof {
                parse::lemma_joined_take(c, i as int, review_writer());
            }
            self.u64(rs[i].reviewer);
            self.binary32(rs[i].score);
            assert(self@ =~= old(self)@ + parse::joined(c.take(i + 1), review_writer()));
            i += 1;
        }
        assert(c.take(i as int) =~= c);
    }

    /// Appends a transaction, with its signature where `include_sig`.
    fn enc_tx(&mut self, t: &SubmissionTx, include_sig: bool)
        ensures
            final(self)@ == old(self)@ + (if include_sig {
                encoded_tx(t@)
            } else {
                signing_bytes(t@)
            }),
    {
        let ghost c = canonical_tx(t@);
        self.u64(t.author);
        self.emb(&t.embedding);
        self.u32(t.domain);
        self.u64(t.stake);
        self.u64(t.reviews.len() as u64);
        self.reviews(&t.reviews);
        self.u32(t.repl_success);
        self.u32(t.repl_total);
        self.binary32(t.timestamp_days);
        proof {
            lemma_appended(
                old(self)@,
                bytes::be64(c.author),
                parse::emb_bytes(c.embedding),
                bytes::be32(c.domain),
                bytes::be64(c.stake),
                bytes::be64(c.reviews.len() as u64),
                parse::joined(c.reviews, review_writer()),
                bytes::be32(c.repl_success),
                bytes::be32(c.repl_total),
                bytes::be32(c.timestamp_days),
            );
        }
        if include_sig {
            self.raw(t.signature.as_slice());
            proof {
                lemma_regroup(old(self)@, tx_body_bytes(c), c.signature@);
            }
        }
    }
}

proof fn lemma_appended(
    s: Seq<u8>,
    a: Seq<u8>,
    b: Seq<u8>,
    c: Seq<u8>,
    d: Seq<u8>,
    e: Seq<u8>,
    f: Seq<u8>,
    g: Seq<u8>,
    h: Seq<u8>,
    i: Seq<u8>,
)
    ensures
        s + a + b + c + d + e + f + g + h + i == s + (a + b + c + d + e + f + g + h + i),
{
    broadcast use lemma_regroup;

}

/// The canonical bytes of a block.
pub fn encode_block(b: &Block) -> (r: Vec<u8>)
    ensures
        r@ == encoded_block(b@),
{
    let mut e = Enc::new();
    let ghost c = canonical_block(b@);
    e.u64(b.height);
    e.raw(b.prev_hash.as_slice());
    e.binary32(b.timestamp_days);
    e.u64(b.txs.len() as u64);
    let ghost head = e@;
    assert(head =~= bytes::be64(c.height) + c.prev_hash@ + bytes::be32(c.timestamp_days)
        + bytes::be64(c.txs.len() as u64));
    let mut i: usize = 0;
    assert(head + parse::joined(c.txs.take(0), tx_writer()) =~= head);
    while i < b.txs.len()
        invariant
            i <= b.txs.len(),
            c == canonical_block(b@),
            e@ == head + parse::joined(c.txs.take(i as int), tx_writer()),
        decreases b.txs.len() - i,
    {
        proof {
            parse::lemma_joined_take(c.txs, i as int, tx_writer());
            lemma_regroup(
                head,
                parse::joined(c.txs.take(i as int), tx_writer()),
                encoded_tx(b.txs[i as int]@),
            );
        }
        e.enc_tx(&b.txs[i], true);
        i += 1;
    }
    assert(c.txs.take(i as int) =~= c.txs);
    e.0
}

/// The bytes that the author of a submission signs: all fields but the signature.
pub fn tx_signing_bytes(t: &SubmissionTx) -> (r: Vec<u8>)
    ensures
        r@ == signing_bytes(t@),
{
    let mut e = Enc::new();
    e.enc_tx(t, false);
    assert(e@ =~= signing_bytes(t@));
    e.0
}

/// The canonical bytes of a signed transaction.
pub fn encode_tx(t: &SubmissionTx) -> (r: Vec<u8>)
    ensures
        r@ == encoded_tx(t@),
{
    let mut e = Enc::new();
    e.enc_tx(t, true);
    assert(e@ =~= encoded_tx(t@));
    e.0
}

// --- decoding -----------------------------------------------------------------

fn dec_review(d: &mut Dec) -> (r: Result<Review, CodecError>)
    requires
        old(d).wf(),
    ensures
        final(d).wf(),
        parse::outcome(r, final(d)@) == parse_review(old(d)@),
{
    let reviewer: u64 = match d.u64() {
        Ok(x) => x,
        Err(e) => {
            return Err(e);
        },
    };
    let score: u32 = match d.u32() {
        Ok(x) => x,
        Err(e) => {
            return Err(e);
        },
    };
    Ok(Review { reviewer, score })
}

fn dec_reviews(d: &mut Dec) -> (r: Result<Vec<Review>, CodecError>)
    requires
        old(d).wf(),
    ensures
        final(d).wf(),
        parse::outcome_view(r, final(d)@) == parse_reviews(old(d)@),
{
    let n: u64 = match d.count() {
        Ok(x) => x,
        Err(e) => {
            return Err(e);
        },
    };
    let mut rs: Vec<Review> = Vec::new();
    let ghost whole = parse::parse_list(n as nat, d@, review_parser());
    let mut i: u64 = 0;
    proof {
        parse::lemma_list_start(whole);
    }
    while i < n
        invariant
            i <= n,
            d.wf(),
            whole == parse_reviews(old(d)@),
            whole == parse::after(
                rs@,
                parse::parse_list((n - i) as nat, d@, review_parser()),
            ),
        decreases n - i,
    {
        proof {
            parse::lemma_list_step(rs@, (n - i) as nat, d@, review_parser());
        }
        match dec_review(d) {
            Ok(x) => {
                rs.push(x);
            },
            Err(e) => {
                return Err(e);
            },
        }
        i += 1;
    }
    proof {
        parse::lemma_list_done(rs@, d@, review_parser());
    }
    Ok(rs)
}

fn dec_tx(d: &mut Dec) -> (r: Result<SubmissionTx, CodecError>)
    requires
        old(d).wf(),
    ensures
        final(d).wf(),
        parse::outcome_view(r, final(d)@) == parse_tx(old(d)@),
{
    let author: u64 = match d.u64() {
        Ok(x) => x,
        Err(e) => {
            return Err(e);
        },
    };
    let embedding = match d.emb() {
        Ok(x) => x,
        Err(e) => {
            return Err(e);
        },
    };
    let domain: u32 = match d.u32() {
        Ok(x) => x,
        Err(e) => {
            return Err(e);
        },
    };
    let stake: u64 = match d.u64() {
        Ok(x) => x,
        Err(e) => {
            return Err(e);
        },
    };
    let reviews = match dec_reviews(d) {
        Ok(x) => x,
        Err(e) => {
            return Err(e);
        },
    };
    let repl_success: u32 = match d.u32() {
        Ok(x) => x,
        Err(e) => {
            return Err(e);
        },
    };
    let repl_total: u32 = match d.u32() {
        Ok(x) => x,
        Err(e) => {
            return Err(e);
        },
    };
    let timestamp_days: u32 = match d.u32() {
        Ok(x) => x,
        Err(e) => {
            return Err(e);
        },
    };
    let signature = match d.array::<64>() {
        Ok(x) => x,
        Err(e) => {
            return Err(e);
        },
    };
    Ok(
        SubmissionTx {
            author,
            embedding,
            domain,
            stake,
            reviews,
            repl_success,
            repl_total,
            timestamp_days,
            signature,
        },
    )
}

fn dec_txs(d: &mut Dec, n: u64) -> (r: Result<Vec<SubmissionTx>, CodecError>)
    requires
        old(d).wf(),
    ensures
        final(d).wf(),
        (match r {
            Ok(txs) => Ok((tx::txs_view(txs@), final(d)@)),
            Err(e) => Err(e),
        }) == parse::parse_list(n as nat, old(d)@, tx_parser()),
{
    let mut txs: Vec<SubmissionTx> = Vec::new();
    let ghost whole = parse::parse_list(n as nat, d@, tx_parser());
    let mut i: u64 = 0;
    proof {
        parse::lemma_list_start(whole);
        assert(tx::txs_view(txs@) =~= Seq::<TxView>::empty());
    }
    while i < n
        invariant
            i <= n,
            d.wf(),
            whole == parse::parse_list(n as nat, old(d)@, tx_parser()),
            whole == parse::after(
                tx::txs_view(txs@),
                parse::parse_list((n - i) as nat, d@, tx_parser()),
            ),
        decreases n - i,
    {
        let ghost before = tx::txs_view(txs@);
        proof {
            parse::lemma_list_step(before, (n - i) as nat, d@, tx_parser());
        }
        match dec_tx(d) {
            Ok(x) => {
                txs.push(x);
                assert(tx::txs_view(txs@) =~= before.push(x@));
            },
            Err(e) => {
                return Err(e);
            },
        }
        i += 1;
    }
    proof {
        parse::lemma_list_done(tx::txs_view(txs@), d@, tx_parser());
    }
    Ok(txs)
}

/// Decodes exactly one block.
pub fn decode_block(buf: &[u8]) -> (r: Result<Block, CodecError>)
    ensures
        parse::viewed(r) == parse::parse_whole(parse_block(buf@)),
{
    let mut d = Dec::new(buf);
    let height: u64 = match d.u64() {
        Ok(x) => x,
        Err(e) => {
            return Err(e);
        },
    };
    let prev_hash = match d.array::<32>() {
        Ok(x) => x,
        Err(e) => {
            return Err(e);
        },
    };
    let timestamp_days: u32 = match d.u32() {
        Ok(x) => x,
        Err(e) => {
            return Err(e);
        },
    };
    let n: u64 = match d.count() {
        Ok(x) => x,
        Err(e) => {
            return Err(e);
        },
    };
    let txs = match dec_txs(&mut d, n) {
        Ok(x) => x,
        Err(e) => {
            return Err(e);
        },
    };
    if d.remaining() > 0 {
        return Err(CodecError::TrailingBytes);
    }
    Ok(Block { height, prev_hash, timestamp_days, txs })
}

/// Decodes exactly one signed transaction.
pub fn decode_tx(buf: &[u8]) -> (r: Result<SubmissionTx, CodecError>)
    ensures
        parse::viewed(r) == parse::parse_whole(parse_tx(buf@)),
{
    let mut d = Dec::new(buf);
    let t = match dec_tx(&mut d) {
        Ok(x) => x,
        Err(e) => {
            return Err(e);
        },
    };
    if d.remaining() > 0 {
        return Err(CodecError::TrailingBytes);
    }
    Ok(t)
}

} // verus!
