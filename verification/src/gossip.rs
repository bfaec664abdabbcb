//! The messages that peers exchange, and how they are put on the wire.
//!
//! A message is one tag byte and a body. Encoded blocks, certificates, submissions
//! and the like stand in the body behind a 32-bit length.

use vstd::prelude::*;

use crate::bytes;
use crate::bytes::{copy_vec, push_be32, push_be64, push_bytes};
use crate::codec;
use crate::codec::{decode_block, decode_tx, encode_block, encode_tx};
use crate::consensus;
use crate::consensus::{
    encode_evidence, encode_stakeop, Commit, CommitView, SlashEvidence, StakeOp,
};
use crate::light::{CertifiedHeader, CertifiedView, EntryView, ProofEntry, ProofKind};
use crate::parse;
use crate::parse::{CodecError, Dec, Parsed, Parser};
use crate::tx::{Block, BlockView, SubmissionTx, TxView};
use crate::wire;
use crate::wire::{
    decode_certified_header, decode_commit, decode_evidence, decode_proof_entry,
    decode_proof_kind, decode_stakeop, encode_certified_header, encode_commit,
    encode_proof_entry, encode_proof_kind,
};

verus! {

/// The most certified blocks or headers in one message; a peer that needs more asks
/// again from its new height.
pub const MAX_BATCH: usize = 256;

/// The most entries in one proof request or reply.
pub const MAX_PROOF_BATCH: usize = 32;

pub const TAG_STATUS: u8 = 0;

pub const TAG_GETBLOCKS: u8 = 1;

pub const TAG_BLOCKS: u8 = 2;

pub const TAG_TX: u8 = 3;

pub const TAG_EVIDENCE: u8 = 4;

pub const TAG_STAKEOP: u8 = 5;

pub const TAG_GETHEADERS: u8 = 6;

pub const TAG_HEADERS: u8 = 7;

pub const TAG_GETPROOF: u8 = 8;

pub const TAG_PROOF: u8 = 9;

/// A message between peers.
#[derive(Debug)]
#[allow(inconsistent_fields)]
pub enum GossipMsg {
    /// "My certified chain is this tall."
    Status { height: u64 },
    /// "Send me certified blocks from this height onward."
    GetBlocks { from: u64 },
    /// Certified blocks in height order.
    Blocks(Vec<(Block, Commit)>),
    /// A pending submission.
    Tx(SubmissionTx),
    /// Evidence that a validator signed twice.
    Evidence(SlashEvidence),
    /// A signed bonding request.
    StakeOp(StakeOp),
    /// "Send me certified headers from this height onward."
    GetHeaders { from: u64 },
    /// Certified headers in height order.
    Headers(Vec<CertifiedHeader>),
    /// "Send me the entries with these kinds and ids, with their proofs."
    GetProof { items: Vec<(ProofKind, u64)> },
    /// The entries asked for, in the same order; none for an unknown one.
    Proof { items: Vec<Option<ProofEntry>> },
}

#[verifier::ext_equal]
#[allow(inconsistent_fields)]
pub enum MsgView {
    Status { height: u64 },
    GetBlocks { from: u64 },
    Blocks(Seq<(BlockView, CommitView)>),
    Tx(TxView),
    Evidence(SlashEvidence),
    StakeOp(StakeOp),
    GetHeaders { from: u64 },
    Headers(Seq<CertifiedView>),
    GetProof { items: Seq<(ProofKind, u64)> },
    Proof { items: Seq<Option<EntryView>> },
}

/// What a batch of certified blocks holds.
pub open spec fn batch_view(s: Seq<(Block, Commit)>) -> Seq<(BlockView, CommitView)> {
    s.map_values(|p: (Block, Commit)| (p.0@, p.1@))
}

/// What a batch of certified headers holds.
pub open spec fn headers_view(s: Seq<CertifiedHeader>) -> Seq<CertifiedView> {
    s.map_values(|c: CertifiedHeader| c@)
}

/// What a proof reply holds.
pub open spec fn entries_view(s: Seq<Option<ProofEntry>>) -> Seq<Option<EntryView>> {
    s.map_values(|x: Option<ProofEntry>| parse::viewed_option(x))
}

impl View for GossipMsg {
    type V = MsgView;

    open spec fn view(&self) -> MsgView {
        match self {
            GossipMsg::Status { height } => MsgView::Status { height: *height },
            GossipMsg::GetBlocks { from } => MsgView::GetBlocks { from: *from },
            GossipMsg::Blocks(batch) => MsgView::Blocks(batch_view(batch@)),
            GossipMsg::Tx(t) => MsgView::Tx(t@),
            GossipMsg::Evidence(ev) => MsgView::Evidence(*ev),
            GossipMsg::StakeOp(op) => MsgView::StakeOp(*op),
            GossipMsg::GetHeaders { from } => MsgView::GetHeaders { from: *from },
            GossipMsg::Headers(batch) => MsgView::Headers(headers_view(batch@)),
            GossipMsg::GetProof { items } => MsgView::GetProof { items: items@ },
            GossipMsg::Proof { items } => MsgView::Proof { items: entries_view(items@) },
        }
    }
}

// --- what the bytes are -------------------------------------------------------

/// Bytes behind their 32-bit length.
pub open spec fn framed(s: Seq<u8>) -> Seq<u8> {
    bytes::be32(s.len() as u32) + s
}

pub open spec fn pair_writer() -> spec_fn((BlockView, CommitView)) -> Seq<u8> {
    |p: (BlockView, CommitView)|
        framed(codec::block_bytes(p.0)) + framed(wire::commit_bytes(p.1))
}

pub open spec fn header_writer() -> spec_fn(CertifiedView) -> Seq<u8> {
    |c: CertifiedView| framed(wire::certified_bytes(c))
}

pub open spec fn ask_writer() -> spec_fn((ProofKind, u64)) -> Seq<u8> {
    |q: (ProofKind, u64)| seq![wire::proof_kind_byte(q.0)] + bytes::be64(q.1)
}

/// The bytes of one slot of a proof reply.
pub open spec fn reply_bytes(x: Option<EntryView>) -> Seq<u8> {
    match x {
        None => seq![0u8],
        Some(e) => seq![1u8] + framed(wire::entry_bytes(e)),
    }
}

pub open spec fn reply_writer() -> spec_fn(Option<EntryView>) -> Seq<u8> {
    |x: Option<EntryView>| reply_bytes(x)
}

/// The tag of a message.
pub open spec fn tag_of(m: MsgView) -> u8 {
    match m {
        MsgView::Status { .. } => TAG_STATUS,
        MsgView::GetBlocks { .. } => TAG_GETBLOCKS,
        MsgView::Blocks(_) => TAG_BLOCKS,
        MsgView::Tx(_) => TAG_TX,
        MsgView::Evidence(_) => TAG_EVIDENCE,
        MsgView::StakeOp(_) => TAG_STAKEOP,
        MsgView::GetHeaders { .. } => TAG_GETHEADERS,
        MsgView::Headers(_) => TAG_HEADERS,
        MsgView::GetProof { .. } => TAG_GETPROOF,
        MsgView::Proof { .. } => TAG_PROOF,
    }
}

/// The bytes of a message after its tag.
pub open spec fn body_bytes(m: MsgView) -> Seq<u8> {
    match m {
        MsgView::Status { height } => bytes::be64(height),
        MsgView::GetBlocks { from } => bytes::be64(from),
        MsgView::Blocks(batch) => bytes::be64(batch.len() as u64) + parse::joined(
            batch,
            pair_writer(),
        ),
        MsgView::Tx(t) => framed(codec::tx_bytes(t)),
        MsgView::Evidence(ev) => framed(consensus::evidence_bytes(ev)),
        MsgView::StakeOp(op) => framed(consensus::stake_op_bytes(op)),
        MsgView::GetHeaders { from } => bytes::be64(from),
        MsgView::Headers(batch) => bytes::be64(batch.len() as u64) + parse::joined(
            batch,
            header_writer(),
        ),
        MsgView::GetProof { items } => bytes::be32(items.len() as u32) + parse::joined(
            items,
            ask_writer(),
        ),
        MsgView::Proof { items } => bytes::be32(items.len() as u32) + parse::joined(
            items,
            reply_writer(),
        ),
    }
}

/// The bytes of a message.
pub open spec fn msg_bytes(m: MsgView) -> Seq<u8> {
    seq![tag_of(m)] + body_bytes(m)
}

pub open spec fn canonical_pair(p: (BlockView, CommitView)) -> (BlockView, CommitView) {
    (codec::canonical_block(p.0), p.1)
}

pub open spec fn canonical_reply(x: Option<EntryView>) -> Option<EntryView> {
    match x {
        None => None,
        Some(e) => Some(wire::canonical_entry(e)),
    }
}

/// A message with every NaN made canonical.
pub open spec fn canonical_msg(m: MsgView) -> MsgView {
    match m {
        MsgView::Blocks(batch) => MsgView::Blocks(
            batch.map_values(|p: (BlockView, CommitView)| canonical_pair(p)),
        ),
        MsgView::Tx(t) => MsgView::Tx(codec::canonical_tx(t)),
        MsgView::Headers(batch) => MsgView::Headers(
            batch.map_values(|c: CertifiedView| wire::canonical_certified(c)),
        ),
        MsgView::Proof { items } => MsgView::Proof {
            items: items.map_values(|x: Option<EntryView>| canonical_reply(x)),
        },
        _ => m,
    }
}

/// The canonical bytes of a message.
pub open spec fn encoded_msg(m: MsgView) -> Seq<u8> {
    msg_bytes(canonical_msg(m))
}

// --- what bytes mean ----------------------------------------------------------

/// Bytes behind their 32-bit length.
pub open spec fn parse_frame(s: Seq<u8>) -> Parsed<Seq<u8>> {
    match parse::parse_u32(s) {
        Err(e) => Err(e),
        Ok((n, rest)) => parse::parse_raw(rest, n as nat),
    }
}

/// A value that fills a frame.
pub open spec fn parse_framed<T>(s: Seq<u8>, inner: Parser<T>) -> Parsed<T> {
    match parse_frame(s) {
        Err(e) => Err(e),
        Ok((body, rest)) => match parse::parse_whole(inner(body)) {
            Err(e) => Err(e),
            Ok(x) => Ok((x, rest)),
        },
    }
}

pub open spec fn block_parser() -> Parser<BlockView> {
    |s: Seq<u8>| codec::parse_block(s)
}

pub open spec fn commit_parser() -> Parser<CommitView> {
    |s: Seq<u8>| wire::parse_commit(s)
}

pub open spec fn certified_parser() -> Parser<CertifiedView> {
    |s: Seq<u8>| wire::parse_certified(s)
}

pub open spec fn evidence_parser() -> Parser<SlashEvidence> {
    |s: Seq<u8>| wire::parse_evidence(s)
}

pub open spec fn stakeop_parser() -> Parser<StakeOp> {
    |s: Seq<u8>| wire::parse_stakeop(s)
}

pub open spec fn entry_parser() -> Parser<EntryView> {
    |s: Seq<u8>| wire::parse_entry(s)
}

/// A framed block and its framed certificate.
pub open spec fn parse_pair(s: Seq<u8>) -> Parsed<(BlockView, CommitView)> {
    match parse_framed(s, block_parser()) {
        Err(e) => Err(e),
        Ok((b, s1)) => match parse_framed(s1, commit_parser()) {
            Err(e) => Err(e),
            Ok((c, s2)) => Ok(((b, c), s2)),
        },
    }
}

pub open spec fn pair_parser() -> Parser<(BlockView, CommitView)> {
    |s: Seq<u8>| parse_pair(s)
}

pub open spec fn header_parser() -> Parser<CertifiedView> {
    |s: Seq<u8>| parse_framed(s, certified_parser())
}

/// One line of a proof request.
pub open spec fn parse_ask(s: Seq<u8>) -> Parsed<(ProofKind, u64)> {
    match parse::parse_u8(s) {
        Err(e) => Err(e),
        Ok((b, s1)) => match wire::proof_kind_of(b) {
            Err(e) => Err(e),
            Ok(kind) => match parse::parse_u64(s1) {
                Err(e) => Err(e),
                Ok((id, s2)) => Ok(((kind, id), s2)),
            },
        },
    }
}

pub open spec fn ask_parser() -> Parser<(ProofKind, u64)> {
    |s: Seq<u8>| parse_ask(s)
}

/// One slot of a proof reply.
pub open spec fn parse_reply(s: Seq<u8>) -> Parsed<Option<EntryView>> {
    match parse::parse_u8(s) {
        Err(e) => Err(e),
        Ok((b, s1)) => if b == 0 {
            Ok((None, s1))
        } else if b == 1 {
            match parse_framed(s1, entry_parser()) {
                Err(e) => Err(e),
                Ok((x, s2)) => Ok((Some(x), s2)),
            }
        } else {
            Err(CodecError::BadEnum(b as u32))
        },
    }
}

pub open spec fn reply_parser() -> Parser<Option<EntryView>> {
    |s: Seq<u8>| parse_reply(s)
}

/// A list behind a 64-bit count of at most a batch.
pub open spec fn parse_batch<T>(s: Seq<u8>, item: Parser<T>) -> Parsed<Seq<T>> {
    match parse::parse_u64(s) {
        Err(e) => Err(e),
        Ok((n, s1)) => if n > MAX_BATCH {
            Err(CodecError::TooManyItems(n))
        } else {
            parse::parse_list(n as nat, s1, item)
        },
    }
}

/// A list behind a 32-bit count of at most a proof batch.
pub open spec fn parse_proof_batch<T>(s: Seq<u8>, item: Parser<T>) -> Parsed<Seq<T>> {
    match parse::parse_u32(s) {
        Err(e) => Err(e),
        Ok((n, s1)) => if n > MAX_PROOF_BATCH {
            Err(CodecError::TooManyItems(n as u64))
        } else {
            parse::parse_list(n as nat, s1, item)
        },
    }
}

/// The body of a message with the given tag.
pub open spec fn parse_body(tag: u8, s: Seq<u8>) -> Parsed<MsgView> {
    if tag == TAG_STATUS {
        match parse::parse_u64(s) {
            Err(e) => Err(e),
            Ok((height, rest)) => Ok((MsgView::Status { height }, rest)),
        }
    } else if tag == TAG_GETBLOCKS {
        match parse::parse_u64(s) {
            Err(e) => Err(e),
            Ok((from, rest)) => Ok((MsgView::GetBlocks { from }, rest)),
        }
    } else if tag == TAG_BLOCKS {
        match parse_batch(s, pair_parser()) {
            Err(e) => Err(e),
            Ok((batch, rest)) => Ok((MsgView::Blocks(batch), rest)),
        }
    } else if tag == TAG_TX {
        match parse_framed(s, codec::tx_parser()) {
            Err(e) => Err(e),
            Ok((t, rest)) => Ok((MsgView::Tx(t), rest)),
        }
    } else if tag == TAG_EVIDENCE {
        match parse_framed(s, evidence_parser()) {
            Err(e) => Err(e),
            Ok((ev, rest)) => Ok((MsgView::Evidence(ev), rest)),
        }
    } else if tag == TAG_STAKEOP {
        match parse_framed(s, stakeop_parser()) {
            Err(e) => Err(e),
            Ok((op, rest)) => Ok((MsgView::StakeOp(op), rest)),
        }
    } else if tag == TAG_GETHEADERS {
        match parse::parse_u64(s) {
            Err(e) => Err(e),
            Ok((from, rest)) => Ok((MsgView::GetHeaders { from }, rest)),
        }
    } else if tag == TAG_HEADERS {
        match parse_batch(s, header_parser()) {
            Err(e) => Err(e),
            Ok((batch, rest)) => Ok((MsgView::Headers(batch), rest)),
        }
    } else if tag == TAG_GETPROOF {
        match parse_proof_batch(s, ask_parser()) {
            Err(e) => Err(e),
            Ok((items, rest)) => Ok((MsgView::GetProof { items }, rest)),
        }
    } else if tag == TAG_PROOF {
        match parse_proof_batch(s, reply_parser()) {
            Err(e) => Err(e),
            Ok((items, rest)) => Ok((MsgView::Proof { items }, rest)),
        }
    } else {
        Err(CodecError::BadEnum(tag as u32))
    }
}

/// The message that bytes spell.
pub open spec fn parse_msg(s: Seq<u8>) -> Result<MsgView, CodecError> {
    match parse::parse_u8(s) {
        Err(e) => Err(e),
        Ok((tag, body)) => parse::parse_whole(parse_body(tag, body)),
    }
}

/// Whether bytes are short enough for a frame.
pub open spec fn frames(s: Seq<u8>) -> bool {
    s.len() <= u32::MAX
}

/// Whether a message is short enough, in every part, to be decoded.
pub open spec fn msg_within_limits(m: MsgView) -> bool {
    match m {
        MsgView::Blocks(batch) => {
            &&& batch.len() <= MAX_BATCH
            &&& forall|i: int|
                0 <= i < batch.len() ==> {
                    &&& codec::block_within_limits((#[trigger] batch[i]).0)
                    &&& frames(codec::encoded_block(batch[i].0))
                    &&& wire::commit_within_limits(batch[i].1)
                    &&& frames(wire::commit_bytes(batch[i].1))
                }
        },
        MsgView::Tx(t) => codec::tx_within_limits(t) && frames(codec::encoded_tx(t)),
        MsgView::Headers(batch) => {
            &&& batch.len() <= MAX_BATCH
            &&& forall|i: int|
                0 <= i < batch.len() ==> {
                    &&& wire::commit_within_limits((#[trigger] batch[i]).cert)
                    &&& frames(
                        wire::certified_bytes(wire::canonical_certified(batch[i])),
                    )
                }
        },
        MsgView::GetProof { items } => items.len() <= MAX_PROOF_BATCH,
        MsgView::Proof { items } => {
            &&& items.len() <= MAX_PROOF_BATCH
            &&& forall|i: int|
                0 <= i < items.len() ==> ((#[trigger] items[i]) matches Some(x)
                    ==> wire::entry_within_limits(x) && frames(
                    wire::entry_bytes(wire::canonical_entry(x)),
                ))
        },
        _ => true,
    }
}

// --- laws ---------------------------------------------------------------------

/// Bytes that were put behind their length are read back, and what follows them is left.
pub proof fn law_frame_read_back(s: Seq<u8>, rest: Seq<u8>)
    requires
        frames(s),
    ensures
        parse_frame(framed(s) + rest) == Ok::<(Seq<u8>, Seq<u8>), CodecError>((s, rest)),
{
    codec::lemma_regroup(bytes::be32(s.len() as u32), s, rest);
    bytes::lemma_be32_word32(s.len() as u32, s + rest);
    assert((s + rest).take(s.len() as int) =~= s);
    assert((s + rest).skip(s.len() as int) =~= rest);
}

/// A frame is the bytes that its length announces, and the input ends exactly where
/// there are fewer.
pub proof fn law_frame_is_what_its_length_announces(s: Seq<u8>)
    ensures
        parse_frame(s) == if s.len() < 4 || s.len() - 4 < bytes::word32(s) {
            Err::<(Seq<u8>, Seq<u8>), CodecError>(CodecError::UnexpectedEof)
        } else {
            let end = 4 + bytes::word32(s);
            Ok((s.subrange(4, end), s.skip(end)))
        },
{
    if s.len() >= 4 && s.len() - 4 >= bytes::word32(s) {
        let n = bytes::word32(s) as int;
        assert(s.skip(4).take(n) =~= s.subrange(4, 4 + n));
        assert(s.skip(4).skip(n) =~= s.skip(4 + n));
    }
}

proof fn lemma_framed_read_back<T>(x: T, s: Seq<u8>, rest: Seq<u8>, inner: Parser<T>)
    requires
        frames(s),
        inner(s + Seq::<u8>::empty()) == Ok::<(T, Seq<u8>), CodecError>((x, Seq::<u8>::empty())),
    ensures
        parse_framed(framed(s) + rest, inner) == Ok::<(T, Seq<u8>), CodecError>((x, rest)),
{
    law_frame_read_back(s, rest);
    assert(s + Seq::<u8>::empty() =~= s);
}

proof fn lemma_canonical_limits(b: BlockView)
    requires
        codec::block_within_limits(b),
    ensures
        codec::block_within_limits(codec::canonical_block(b)),
{
    let c = codec::canonical_block(b);
    assert forall|i: int| 0 <= i < c.txs.len() implies codec::tx_within_limits(
        #[trigger] c.txs[i],
    ) by {
        assert(codec::tx_within_limits(b.txs[i]));
    }
}

proof fn lemma_pairs_read_back(batch: Seq<(BlockView, CommitView)>, rest: Seq<u8>)
    requires
        msg_within_limits(MsgView::Blocks(batch)),
    ensures
        parse_batch(
            bytes::be64(batch.len() as u64) + parse::joined(
                batch.map_values(|p: (BlockView, CommitView)| canonical_pair(p)),
                pair_writer(),
            ) + rest,
            pair_parser(),
        ) == Ok::<(Seq<(BlockView, CommitView)>, Seq<u8>), CodecError>(
            (batch.map_values(|p: (BlockView, CommitView)| canonical_pair(p)), rest),
        ),
{
    let c = batch.map_values(|p: (BlockView, CommitView)| canonical_pair(p));
    let list = parse::joined(c, pair_writer());
    codec::lemma_regroup(bytes::be64(batch.len() as u64), list, rest);
    bytes::lemma_be64_word64(batch.len() as u64, list + rest);
    assert forall|i: int, after: Seq<u8>|
        0 <= i < c.len() implies #[trigger] pair_parser()(pair_writer()(c[i]) + after) == Ok::<
        ((BlockView, CommitView), Seq<u8>),
        CodecError,
    >((c[i], after)) by {
        let (b, k) = c[i];
        let bb = codec::block_bytes(b);
        let kb = wire::commit_bytes(k);
        assert(codec::block_within_limits(batch[i].0));
        lemma_canonical_limits(batch[i].0);
        codec::lemma_regroup(framed(bb), framed(kb), after);
        codec::law_block_read_back(b, Seq::empty());
        lemma_framed_read_back(b, bb, framed(kb) + after, block_parser());
        wire::law_commit_read_back(k, Seq::empty());
        lemma_framed_read_back(k, kb, after, commit_parser());
    }
    parse::lemma_list_read_back(c, rest, pair_writer(), pair_parser());
}

proof fn lemma_headers_read_back(batch: Seq<CertifiedView>, rest: Seq<u8>)
    requires
        msg_within_limits(MsgView::Headers(batch)),
    ensures
        parse_batch(
            bytes::be64(batch.len() as u64) + parse::joined(
                batch.map_values(|c: CertifiedView| wire::canonical_certified(c)),
                header_writer(),
            ) + rest,
            header_parser(),
        ) == Ok::<(Seq<CertifiedView>, Seq<u8>), CodecError>(
            (batch.map_values(|c: CertifiedView| wire::canonical_certified(c)), rest),
        ),
{
    let c = batch.map_values(|c: CertifiedView| wire::canonical_certified(c));
    let list = parse::joined(c, header_writer());
    codec::lemma_regroup(bytes::be64(batch.len() as u64), list, rest);
    bytes::lemma_be64_word64(batch.len() as u64, list + rest);
    assert forall|i: int, after: Seq<u8>|
        0 <= i < c.len() implies #[trigger] header_parser()(header_writer()(c[i]) + after) == Ok::<
        (CertifiedView, Seq<u8>),
        CodecError,
    >((c[i], after)) by {
        assert(wire::commit_within_limits(batch[i].cert));
        wire::law_certified_read_back(c[i], Seq::empty());
        lemma_framed_read_back(c[i], wire::certified_bytes(c[i]), after, certified_parser());
    }
    parse::lemma_list_read_back(c, rest, header_writer(), header_parser());
}

proof fn lemma_asks_read_back(items: Seq<(ProofKind, u64)>, rest: Seq<u8>)
    requires
        items.len() <= MAX_PROOF_BATCH,
    ensures
        parse_proof_batch(
            bytes::be32(items.len() as u32) + parse::joined(items, ask_writer()) + rest,
            ask_parser(),
        ) == Ok::<(Seq<(ProofKind, u64)>, Seq<u8>), CodecError>((items, rest)),
{
    let list = parse::joined(items, ask_writer());
    codec::lemma_regroup(bytes::be32(items.len() as u32), list, rest);
    bytes::lemma_be32_word32(items.len() as u32, list + rest);
    assert forall|i: int, after: Seq<u8>|
        0 <= i < items.len() implies #[trigger] ask_parser()(ask_writer()(items[i]) + after)
        == Ok::<((ProofKind, u64), Seq<u8>), CodecError>((items[i], after)) by {
        let (kind, id) = items[i];
        wire::lemma_tagged(wire::proof_kind_byte(kind), bytes::be64(id), after);
        bytes::lemma_be64_word64(id, after);
    }
    parse::lemma_list_read_back(items, rest, ask_writer(), ask_parser());
}

proof fn lemma_replies_read_back(items: Seq<Option<EntryView>>, rest: Seq<u8>)
    requires
        msg_within_limits(MsgView::Proof { items }),
    ensures
        parse_proof_batch(
            bytes::be32(items.len() as u32) + parse::joined(
                items.map_values(|x: Option<EntryView>| canonical_reply(x)),
                reply_writer(),
            ) + rest,
            reply_parser(),
        ) == Ok::<(Seq<Option<EntryView>>, Seq<u8>), CodecError>(
            (items.map_values(|x: Option<EntryView>| canonical_reply(x)), rest),
        ),
{
    let c = items.map_values(|x: Option<EntryView>| canonical_reply(x));
    let list = parse::joined(c, reply_writer());
    codec::lemma_regroup(bytes::be32(items.len() as u32), list, rest);
    bytes::lemma_be32_word32(items.len() as u32, list + rest);
    assert forall|i: int, after: Seq<u8>|
        0 <= i < c.len() implies #[trigger] reply_parser()(reply_writer()(c[i]) + after) == Ok::<
        (Option<EntryView>, Seq<u8>),
        CodecError,
    >((c[i], after)) by {
        match c[i] {
            None => {
                wire::lemma_tagged(0, Seq::empty(), after);
                assert(seq![0u8] + Seq::<u8>::empty() =~= seq![0u8]);
                assert(Seq::<u8>::empty() + after =~= after);
            },
            Some(x) => {
                let s = wire::entry_bytes(x);
                assert(items[i] is Some);
                assert(wire::entry_within_limits(items[i]->0));
                wire::lemma_tagged(1, framed(s), after);
                wire::law_entry_read_back(x, Seq::empty());
                lemma_framed_read_back(x, s, after, entry_parser());
            },
        }
    }
    parse::lemma_list_read_back(c, rest, reply_writer(), reply_parser());
}

proof fn lemma_body_read_back(m: MsgView, rest: Seq<u8>)
    requires
        msg_within_limits(m),
    ensures
        parse_body(tag_of(m), body_bytes(canonical_msg(m)) + rest) == Ok::<
            (MsgView, Seq<u8>),
            CodecError,
        >((canonical_msg(m), rest)),
{
    match m {
        MsgView::Status { height } => {
            bytes::lemma_be64_word64(height, rest);
        },
        MsgView::GetBlocks { from } => {
            bytes::lemma_be64_word64(from, rest);
        },
        MsgView::Blocks(batch) => {
            lemma_pairs_read_back(batch, rest);
        },
        MsgView::Tx(t) => {
            let c = codec::canonical_tx(t);
            codec::law_tx_read_back(c, Seq::empty());
            lemma_framed_read_back(c, codec::tx_bytes(c), rest, codec::tx_parser());
        },
        MsgView::Evidence(ev) => {
            lemma_evidence_frames(ev);
            wire::law_evidence_read_back(ev, Seq::empty());
            lemma_framed_read_back(ev, consensus::evidence_bytes(ev), rest, evidence_parser());
        },
        MsgView::StakeOp(op) => {
            lemma_stake_op_frames(op);
            wire::law_stakeop_read_back(op, Seq::empty());
            lemma_framed_read_back(op, consensus::stake_op_bytes(op), rest, stakeop_parser());
        },
        MsgView::GetHeaders { from } => {
            bytes::lemma_be64_word64(from, rest);
        },
        MsgView::Headers(batch) => {
            lemma_headers_read_back(batch, rest);
        },
        MsgView::GetProof { items } => {
            lemma_asks_read_back(items, rest);
        },
        MsgView::Proof { items } => {
            lemma_replies_read_back(items, rest);
        },
    }
}

proof fn lemma_evidence_frames(ev: SlashEvidence)
    ensures
        frames(consensus::evidence_bytes(ev)),
{
    broadcast use bytes::lemma_be32_len, bytes::lemma_be64_len;

}

proof fn lemma_stake_op_frames(op: StakeOp)
    ensures
        frames(consensus::stake_op_bytes(op)),
{
    broadcast use bytes::lemma_be64_len;

}

/// Decoding the encoding of a message gives the message with its NaNs made
/// canonical.
pub proof fn law_msg_round_trip(m: MsgView)
    requires
        msg_within_limits(m),
    ensures
        parse_msg(encoded_msg(m)) == Ok::<MsgView, CodecError>(canonical_msg(m)),
{
    let c = canonical_msg(m);
    let nothing = Seq::<u8>::empty();
    wire::lemma_tagged(tag_of(m), body_bytes(c), nothing);
    assert(msg_bytes(c) + nothing =~= msg_bytes(c));
    lemma_body_read_back(m, nothing);
}

/// Anything after a message is refused as trailing bytes.
pub proof fn law_trailing_bytes_are_refused(m: MsgView, extra: Seq<u8>)
    requires
        msg_within_limits(m),
        extra.len() > 0,
    ensures
        parse_msg(encoded_msg(m) + extra) == Err::<MsgView, CodecError>(CodecError::TrailingBytes),
{
    wire::lemma_tagged(tag_of(m), body_bytes(canonical_msg(m)), extra);
    lemma_body_read_back(m, extra);
}

proof fn lemma_frame_carried(s: Seq<u8>, more: Seq<u8>)
    ensures
        parse::carried(parse_frame(s), parse_frame(s + more), more),
{
    parse::lemma_u32_carried(s, more);
    if let Ok((n, rest)) = parse::parse_u32(s) {
        parse::lemma_raw_carried(rest, n as nat, more);
    }
}

proof fn lemma_framed_carried<T>(s: Seq<u8>, inner: Parser<T>, more: Seq<u8>)
    ensures
        parse::carried(parse_framed(s, inner), parse_framed(s + more, inner), more),
{
    lemma_frame_carried(s, more);
}

proof fn lemma_batch_carried<T>(s: Seq<u8>, item: Parser<T>, more: Seq<u8>)
    requires
        forall|s: Seq<u8>, more: Seq<u8>|
            parse::carried(item(s), #[trigger] item(s + more), more),
    ensures
        parse::carried(parse_batch(s, item), parse_batch(s + more, item), more),
        parse::carried(parse_proof_batch(s, item), parse_proof_batch(s + more, item), more),
{
    parse::lemma_u64_carried(s, more);
    if let Ok((n, s1)) = parse::parse_u64(s) {
        parse::lemma_list_carried(n as nat, s1, item, more);
    }
    parse::lemma_u32_carried(s, more);
    if let Ok((n, s1)) = parse::parse_u32(s) {
        parse::lemma_list_carried(n as nat, s1, item, more);
    }
}

proof fn lemma_items_carried()
    ensures
        forall|s: Seq<u8>, more: Seq<u8>|
            parse::carried(pair_parser()(s), #[trigger] pair_parser()(s + more), more),
        forall|s: Seq<u8>, more: Seq<u8>|
            parse::carried(header_parser()(s), #[trigger] header_parser()(s + more), more),
        forall|s: Seq<u8>, more: Seq<u8>|
            parse::carried(ask_parser()(s), #[trigger] ask_parser()(s + more), more),
        forall|s: Seq<u8>, more: Seq<u8>|
            parse::carried(reply_parser()(s), #[trigger] reply_parser()(s + more), more),
{
    assert forall|s: Seq<u8>, more: Seq<u8>|
        parse::carried(pair_parser()(s), #[trigger] pair_parser()(s + more), more) by {
        lemma_framed_carried(s, block_parser(), more);
        if let Ok((_, s1)) = parse_framed(s, block_parser()) {
            lemma_framed_carried(s1, commit_parser(), more);
        }
    }
    assert forall|s: Seq<u8>, more: Seq<u8>|
        parse::carried(header_parser()(s), #[trigger] header_parser()(s + more), more) by {
        lemma_framed_carried(s, certified_parser(), more);
    }
    assert forall|s: Seq<u8>, more: Seq<u8>|
        parse::carried(ask_parser()(s), #[trigger] ask_parser()(s + more), more) by {
        parse::lemma_u8_carried(s, more);
        if let Ok((_, s1)) = parse::parse_u8(s) {
            parse::lemma_u64_carried(s1, more);
        }
    }
    assert forall|s: Seq<u8>, more: Seq<u8>|
        parse::carried(reply_parser()(s), #[trigger] reply_parser()(s + more), more) by {
        parse::lemma_u8_carried(s, more);
        if let Ok((_, s1)) = parse::parse_u8(s) {
            lemma_framed_carried(s1, entry_parser(), more);
        }
    }
}

proof fn lemma_body_carried(tag: u8, s: Seq<u8>, more: Seq<u8>)
    ensures
        parse::carried(parse_body(tag, s), parse_body(tag, s + more), more),
{
    lemma_items_carried();
    parse::lemma_u64_carried(s, more);
    lemma_batch_carried(s, pair_parser(), more);
    lemma_framed_carried(s, codec::tx_parser(), more);
    lemma_framed_carried(s, evidence_parser(), more);
    lemma_framed_carried(s, stakeop_parser(), more);
    lemma_batch_carried(s, header_parser(), more);
    lemma_batch_carried(s, ask_parser(), more);
    lemma_batch_carried(s, reply_parser(), more);
}

/// A message's encoding cut short, wherever the cut falls, is refused because the input
/// ends.
pub proof fn law_truncated_msg_is_refused(m: MsgView, n: int)
    requires
        msg_within_limits(m),
        0 <= n < encoded_msg(m).len(),
    ensures
        parse_msg(encoded_msg(m).take(n)) == Err::<MsgView, CodecError>(CodecError::UnexpectedEof),
{
    let whole = encoded_msg(m);
    let (cut, more) = (whole.take(n), whole.skip(n));
    law_msg_round_trip(m);
    if n > 0 {
        let tag = whole[0];
        assert(cut[0] == tag);
        assert(whole.skip(1) =~= cut.skip(1) + more);
        lemma_body_carried(tag, cut.skip(1), more);
        parse::lemma_cut_short(
            parse_body(tag, cut.skip(1)),
            parse_body(tag, whole.skip(1)),
            more,
        );
    }
}

/// Re-encoding what was decoded gives the same bytes.
pub proof fn law_canonical_msg_is_stable(m: MsgView)
    ensures
        canonical_msg(canonical_msg(m)) == canonical_msg(m),
        encoded_msg(canonical_msg(m)) == encoded_msg(m),
{
    let c = canonical_msg(m);
    let d = canonical_msg(c);
    match m {
        MsgView::Blocks(batch) => {
            let x = c->Blocks_0;
            let y = d->Blocks_0;
            assert forall|i: int| 0 <= i < batch.len() implies y[i] == x[i] by {
                codec::law_canonical_block_is_stable(batch[i].0);
            }
            assert(y =~= x);
        },
        MsgView::Tx(t) => {
            codec::law_canonical_tx_is_stable(t);
        },
        MsgView::Headers(batch) => {
            assert(d->Headers_0 =~= c->Headers_0);
        },
        MsgView::Proof { items } => {
            let x = c->Proof_items;
            let y = d->Proof_items;
            assert forall|i: int| 0 <= i < items.len() implies y[i] == x[i] by {
                if let Some(e) = items[i] {
                    lemma_canonical_entry_is_stable(e);
                }
            }
            assert(y =~= x);
        },
        _ => {},
    }
}

proof fn lemma_canonical_entry_is_stable(e: EntryView)
    ensures
        wire::canonical_entry(wire::canonical_entry(e)) == wire::canonical_entry(e),
{
    if let EntryView::GraphNode { node_id, graph_node, path } = e {
        codec::lemma_canonical_emb_is_stable(graph_node.embedding);
    }
}

/// A request for too many proofs does not decode.
pub proof fn law_too_many_proofs_are_refused(items: Seq<(ProofKind, u64)>)
    requires
        MAX_PROOF_BATCH < items.len() <= u32::MAX,
    ensures
        parse_msg(encoded_msg(MsgView::GetProof { items })) == Err::<MsgView, CodecError>(
            CodecError::TooManyItems(items.len() as u64),
        ),
{
    let m = MsgView::GetProof { items };
    let nothing = Seq::<u8>::empty();
    let list = parse::joined(items, ask_writer());
    wire::lemma_tagged(tag_of(m), body_bytes(m), nothing);
    assert(msg_bytes(m) + nothing =~= msg_bytes(m));
    assert(body_bytes(m) + nothing =~= body_bytes(m));
    bytes::lemma_be32_word32(items.len() as u32, list);
}

// --- copies -------------------------------------------------------------------

/// A copy of a batch of certified blocks.
pub(crate) fn clone_batch(v: &Vec<(Block, Commit)>) -> (r: Vec<(Block, Commit)>)
    ensures
        batch_view(r@) == batch_view(v@),
{
    let mut r: Vec<(Block, Commit)> = Vec::new();
    let mut i: usize = 0;
    while i < v.len()
        invariant
            i <= v.len(),
            batch_view(r@) == batch_view(v@).take(i as int),
        decreases v.len() - i,
    {
        let ghost before = batch_view(r@);
        let b = v[i].0.clone();
        let c = v[i].1.clone();
        r.push((b, c));
        assert(batch_view(r@) =~= before.push((b@, c@)));
        assert(batch_view(v@).take(i + 1) =~= before.push(batch_view(v@)[i as int]));
        i += 1;
    }
    assert(batch_view(v@).take(i as int) =~= batch_view(v@));
    r
}

fn clone_headers(v: &Vec<CertifiedHeader>) -> (r: Vec<CertifiedHeader>)
    ensures
        headers_view(r@) == headers_view(v@),
{
    let mut r: Vec<CertifiedHeader> = Vec::new();
    let mut i: usize = 0;
    while i < v.len()
        invariant
            i <= v.len(),
            headers_view(r@) == headers_view(v@).take(i as int),
        decreases v.len() - i,
    {
        let ghost before = headers_view(r@);
        let c = v[i].clone();
        r.push(c);
        assert(headers_view(r@) =~= before.push(c@));
        assert(headers_view(v@).take(i + 1) =~= before.push(headers_view(v@)[i as int]));
        i += 1;
    }
    assert(headers_view(v@).take(i as int) =~= headers_view(v@));
    r
}

fn clone_entries(v: &Vec<Option<ProofEntry>>) -> (r: Vec<Option<ProofEntry>>)
    ensures
        entries_view(r@) == entries_view(v@),
{
    let mut r: Vec<Option<ProofEntry>> = Vec::new();
    let mut i: usize = 0;
    while i < v.len()
        invariant
            i <= v.len(),
            entries_view(r@) == entries_view(v@).take(i as int),
        decreases v.len() - i,
    {
        let ghost before = entries_view(r@);
        let x = match &v[i] {
            Some(e) => Some(e.clone()),
            None => None,
        };
        r.push(x);
        assert(entries_view(r@) =~= before.push(parse::viewed_option(x)));
        assert(entries_view(v@).take(i + 1) =~= before.push(entries_view(v@)[i as int]));
        i += 1;
    }
    assert(entries_view(v@).take(i as int) =~= entries_view(v@));
    r
}

impl Clone for GossipMsg {
    fn clone(&self) -> (r: GossipMsg)
        ensures
            r@ == self@,
    {
        match self {
            GossipMsg::Status { height } => GossipMsg::Status { height: *height },
            GossipMsg::GetBlocks { from } => GossipMsg::GetBlocks { from: *from },
            GossipMsg::Blocks(batch) => GossipMsg::Blocks(clone_batch(batch)),
            GossipMsg::Tx(t) => GossipMsg::Tx(t.clone()),
            GossipMsg::Evidence(ev) => GossipMsg::Evidence(*ev),
            GossipMsg::StakeOp(op) => GossipMsg::StakeOp(*op),
            GossipMsg::GetHeaders { from } => GossipMsg::GetHeaders { from: *from },
            GossipMsg::Headers(batch) => GossipMsg::Headers(clone_headers(batch)),
            GossipMsg::GetProof { items } => GossipMsg::GetProof { items: copy_vec(items) },
            GossipMsg::Proof { items } => GossipMsg::Proof { items: clone_entries(items) },
        }
    }
}

// --- encoding -----------------------------------------------------------------

/// Appends bytes behind their 32-bit length.
pub fn put_bytes(out: &mut Vec<u8>, b: &[u8])
    ensures
        final(out)@ == old(out)@ + framed(b@),
{
    push_be32(out, b.len() as u32);
    push_bytes(out, b);
    assert(out@ =~= old(out)@ + framed(b@));
}

fn put_pairs(out: &mut Vec<u8>, batch: &Vec<(Block, Commit)>)
    ensures
        final(out)@ == old(out)@ + parse::joined(
            batch_view(batch@).map_values(|p: (BlockView, CommitView)| canonical_pair(p)),
            pair_writer(),
        ),
{
    let ghost c = batch_view(batch@).map_values(|p: (BlockView, CommitView)| canonical_pair(p));
    let mut i: usize = 0;
    assert(old(out)@ + parse::joined(c.take(0), pair_writer()) =~= old(out)@);
    while i < batch.len()
        invariant
            i <= batch.len(),
            c == batch_view(batch@).map_values(
                |p: (BlockView, CommitView)| canonical_pair(p),
            ),
            out@ == old(out)@ + parse::joined(c.take(i as int), pair_writer()),
        decreases batch.len() - i,
    {
        let ghost before = out@;
        let b = encode_block(&batch[i].0);
        put_bytes(out, b.as_slice());
        let k = encode_commit(&batch[i].1);
        put_bytes(out, k.as_slice());
        proof {
            codec::lemma_regroup(before, framed(b@), framed(k@));
            parse::lemma_joined_take(c, i as int, pair_writer());
            codec::lemma_regroup(
                old(out)@,
                parse::joined(c.take(i as int), pair_writer()),
                pair_writer()(c[i as int]),
            );
        }
        i += 1;
    }
    assert(c.take(i as int) =~= c);
}

fn put_headers(out: &mut Vec<u8>, batch: &Vec<CertifiedHeader>)
    ensures
        final(out)@ == old(out)@ + parse::joined(
            headers_view(batch@).map_values(|c: CertifiedView| wire::canonical_certified(c)),
            header_writer(),
        ),
{
    let ghost c = headers_view(batch@).map_values(
        |c: CertifiedView| wire::canonical_certified(c),
    );
    let mut i: usize = 0;
    assert(old(out)@ + parse::joined(c.take(0), header_writer()) =~= old(out)@);
    while i < batch.len()
        invariant
            i <= batch.len(),
            c == headers_view(batch@).map_values(
                |c: CertifiedView| wire::canonical_certified(c),
            ),
            out@ == old(out)@ + parse::joined(c.take(i as int), header_writer()),
        decreases batch.len() - i,
    {
        let b = encode_certified_header(&batch[i]);
        put_bytes(out, b.as_slice());
        proof {
            parse::lemma_joined_take(c, i as int, header_writer());
            codec::lemma_regroup(
                old(out)@,
                parse::joined(c.take(i as int), header_writer()),
                header_writer()(c[i as int]),
            );
        }
        i += 1;
    }
    assert(c.take(i as int) =~= c);
}

fn put_asks(out: &mut Vec<u8>, items: &Vec<(ProofKind, u64)>)
    ensures
        final(out)@ == old(out)@ + parse::joined(items@, ask_writer()),
{
    let mut i: usize = 0;
    assert(old(out)@ + parse::joined(items@.take(0), ask_writer()) =~= old(out)@);
    while i < items.len()
        invariant
            i <= items.len(),
            out@ == old(out)@ + parse::joined(items@.take(i as int), ask_writer()),
        decreases items.len() - i,
    {
        let ghost before = out@;
        out.push(encode_proof_kind(items[i].0));
        push_be64(out, items[i].1);
        proof {
            assert(out@ =~= before + ask_writer()(items@[i as int]));
            parse::lemma_joined_take(items@, i as int, ask_writer());
            codec::lemma_regroup(
                old(out)@,
                parse::joined(items@.take(i as int), ask_writer()),
                ask_writer()(items@[i as int]),
            );
        }
        i += 1;
    }
    assert(items@.take(i as int) =~= items@);
}

fn put_replies(out: &mut Vec<u8>, items: &Vec<Option<ProofEntry>>)
    ensures
        final(out)@ == old(out)@ + parse::joined(
            entries_view(items@).map_values(|x: Option<EntryView>| canonical_reply(x)),
            reply_writer(),
        ),
{
    let ghost c = entries_view(items@).map_values(|x: Option<EntryView>| canonical_reply(x));
    let mut i: usize = 0;
    assert(old(out)@ + parse::joined(c.take(0), reply_writer()) =~= old(out)@);
    while i < items.len()
        invariant
            i <= items.len(),
            c == entries_view(items@).map_values(|x: Option<EntryView>| canonical_reply(x)),
            out@ == old(out)@ + parse::joined(c.take(i as int), reply_writer()),
        decreases items.len() - i,
    {
        let ghost before = out@;
        match &items[i] {
            Some(e) => {
                out.push(1);
                let b = encode_proof_entry(e);
                put_bytes(out, b.as_slice());
                assert(out@ =~= before + (seq![1u8] + framed(b@)));
            },
            None => {
                out.push(0);
                assert(out@ =~= before + seq![0u8]);
            },
        }
        proof {
            parse::lemma_joined_take(c, i as int, reply_writer());
            codec::lemma_regroup(
                old(out)@,
                parse::joined(c.take(i as int), reply_writer()),
                reply_writer()(c[i as int]),
            );
        }
        i += 1;
    }
    assert(c.take(i as int) =~= c);
}

/// The canonical bytes of a message: a tag byte and a body.
pub fn encode_gossip(m: &GossipMsg) -> (r: Vec<u8>)
    ensures
        r@ == encoded_msg(m@),
{
    let mut out: Vec<u8> = Vec::new();
    match m {
        GossipMsg::Status { height } => {
            out.push(TAG_STATUS);
            push_be64(&mut out, *height);
        },
        GossipMsg::GetBlocks { from } => {
            out.push(TAG_GETBLOCKS);
            push_be64(&mut out, *from);
        },
        GossipMsg::Blocks(batch) => {
            out.push(TAG_BLOCKS);
            push_be64(&mut out, batch.len() as u64);
            put_pairs(&mut out, batch);
        },
        GossipMsg::Tx(t) => {
            out.push(TAG_TX);
            let b = encode_tx(t);
            put_bytes(&mut out, b.as_slice());
        },
        GossipMsg::Evidence(ev) => {
            out.push(TAG_EVIDENCE);
            let b = encode_evidence(ev);
            put_bytes(&mut out, b.as_slice());
        },
        GossipMsg::StakeOp(op) => {
            out.push(TAG_STAKEOP);
            let b = encode_stakeop(op);
            put_bytes(&mut out, b.as_slice());
        },
        GossipMsg::GetHeaders { from } => {
            out.push(TAG_GETHEADERS);
            push_be64(&mut out, *from);
        },
        GossipMsg::Headers(batch) => {
            out.push(TAG_HEADERS);
            push_be64(&mut out, batch.len() as u64);
            put_headers(&mut out, batch);
        },
        GossipMsg::GetProof { items } => {
            out.push(TAG_GETPROOF);
            push_be32(&mut out, items.len() as u32);
            put_asks(&mut out, items);
        },
        GossipMsg::Proof { items } => {
            out.push(TAG_PROOF);
            push_be32(&mut out, items.len() as u32);
            put_replies(&mut out, items);
        },
    }
    assert(out@ =~= encoded_msg(m@));
    out
}

// --- decoding -----------------------------------------------------------------

/// The bytes behind the next 32-bit length. After an error the cursor is where it was.
pub fn take_bytes<'a>(d: &mut Dec<'a>) -> (r: Result<&'a [u8], CodecError>)
    requires
        old(d).wf(),
    ensures
        final(d).wf(),
        parse::outcome_view(r, final(d)@) == parse_frame(old(d)@),
        r is Err ==> final(d)@ == old(d)@,
{
    let start = *d;
    match d.u32() {
        Ok(n) => match d.take(n as usize) {
            Ok(s) => Ok(s),
            Err(e) => {
                *d = start;
                Err(e)
            },
        },
        Err(e) => Err(e),
    }
}

fn take_pair(d: &mut Dec) -> (r: Result<(Block, Commit), CodecError>)
    requires
        old(d).wf(),
    ensures
        final(d).wf(),
        (match r {
            Ok(p) => Ok(((p.0@, p.1@), final(d)@)),
            Err(e) => Err(e),
        }) == parse_pair(old(d)@),
{
    let b = match take_bytes(d) {
        Ok(body) => match decode_block(body) {
            Ok(x) => x,
            Err(e) => {
                return Err(e);
            },
        },
        Err(e) => {
            return Err(e);
        },
    };
    match take_bytes(d) {
        Ok(body) => match decode_commit(body) {
            Ok(c) => Ok((b, c)),
            Err(e) => Err(e),
        },
        Err(e) => Err(e),
    }
}

fn take_pairs(d: &mut Dec) -> (r: Result<Vec<(Block, Commit)>, CodecError>)
    requires
        old(d).wf(),
    ensures
        final(d).wf(),
        (match r {
            Ok(v) => Ok((batch_view(v@), final(d)@)),
            Err(e) => Err(e),
        }) == parse_batch(old(d)@, pair_parser()),
{
    let n: u64 = match d.u64() {
        Ok(x) => x,
        Err(e) => {
            return Err(e);
        },
    };
    if n > MAX_BATCH as u64 {
        return Err(CodecError::TooManyItems(n));
    }
    let mut v: Vec<(Block, Commit)> = Vec::new();
    let ghost whole = parse::parse_list(n as nat, d@, pair_parser());
    let mut i: u64 = 0;
    proof {
        parse::lemma_list_start(whole);
        assert(batch_view(v@) =~= Seq::<(BlockView, CommitView)>::empty());
    }
    while i < n
        invariant
            i <= n,
            d.wf(),
            whole == parse_batch(old(d)@, pair_parser()),
            whole == parse::after(
                batch_view(v@),
                parse::parse_list((n - i) as nat, d@, pair_parser()),
            ),
        decreases n - i,
    {
        let ghost before = batch_view(v@);
        proof {
            parse::lemma_list_step(before, (n - i) as nat, d@, pair_parser());
        }
        match take_pair(d) {
            Ok(p) => {
                v.push(p);
                assert(batch_view(v@) =~= before.push((p.0@, p.1@)));
            },
            Err(e) => {
                return Err(e);
            },
        }
        i += 1;
    }
    proof {
        parse::lemma_list_done(batch_view(v@), d@, pair_parser());
    }
    Ok(v)
}

fn take_header(d: &mut Dec) -> (r: Result<CertifiedHeader, CodecError>)
    requires
        old(d).wf(),
    ensures
        final(d).wf(),
        parse::outcome_view(r, final(d)@) == parse_framed(old(d)@, certified_parser()),
{
    match take_bytes(d) {
        Ok(body) => decode_certified_header(body),
        Err(e) => Err(e),
    }
}

fn take_headers(d: &mut Dec) -> (r: Result<Vec<CertifiedHeader>, CodecError>)
    requires
        old(d).wf(),
    ensures
        final(d).wf(),
        (match r {
            Ok(v) => Ok((headers_view(v@), final(d)@)),
            Err(e) => Err(e),
        }) == parse_batch(old(d)@, header_parser()),
{
    let n: u64 = match d.u64() {
        Ok(x) => x,
        Err(e) => {
            return Err(e);
        },
    };
    if n > MAX_BATCH as u64 {
        return Err(CodecError::TooManyItems(n));
    }
    let mut v: Vec<CertifiedHeader> = Vec::new();
    let ghost whole = parse::parse_list(n as nat, d@, header_parser());
    let mut i: u64 = 0;
    proof {
        parse::lemma_list_start(whole);
        assert(headers_view(v@) =~= Seq::<CertifiedView>::empty());
    }
    while i < n
        invariant
            i <= n,
            d.wf(),
            whole == parse_batch(old(d)@, header_parser()),
            whole == parse::after(
                headers_view(v@),
                parse::parse_list((n - i) as nat, d@, header_parser()),
            ),
        decreases n - i,
    {
        let ghost before = headers_view(v@);
        proof {
            parse::lemma_list_step(before, (n - i) as nat, d@, header_parser());
        }
        match take_header(d) {
            Ok(x) => {
                v.push(x);
                assert(headers_view(v@) =~= before.push(x@));
            },
            Err(e) => {
                return Err(e);
            },
        }
        i += 1;
    }
    proof {
        parse::lemma_list_done(headers_view(v@), d@, header_parser());
    }
    Ok(v)
}

fn take_ask(d: &mut Dec) -> (r: Result<(ProofKind, u64), CodecError>)
    requires
        old(d).wf(),
    ensures
        final(d).wf(),
        parse::outcome(r, final(d)@) == parse_ask(old(d)@),
{
    let kind = match d.u8() {
        Ok(b) => match decode_proof_kind(b) {
            Ok(k) => k,
            Err(e) => {
                return Err(e);
            },
        },
        Err(e) => {
            return Err(e);
        },
    };
    match d.u64() {
        Ok(id) => Ok((kind, id)),
        Err(e) => Err(e),
    }
}

fn take_asks(d: &mut Dec) -> (r: Result<Vec<(ProofKind, u64)>, CodecError>)
    requires
        old(d).wf(),
    ensures
        final(d).wf(),
        parse::outcome_view(r, final(d)@) == parse_proof_batch(old(d)@, ask_parser()),
{
    let n: u32 = match d.u32() {
        Ok(x) => x,
        Err(e) => {
            return Err(e);
        },
    };
    if n > MAX_PROOF_BATCH as u32 {
        return Err(CodecError::TooManyItems(n as u64));
    }
    let mut v: Vec<(ProofKind, u64)> = Vec::new();
    let ghost whole = parse::parse_list(n as nat, d@, ask_parser());
    let mut i: u32 = 0;
    proof {
        parse::lemma_list_start(whole);
    }
    while i < n
        invariant
            i <= n,
            d.wf(),
            whole == parse_proof_batch(old(d)@, ask_parser()),
            whole == parse::after(v@, parse::parse_list((n - i) as nat, d@, ask_parser())),
        decreases n - i,
    {
        proof {
            parse::lemma_list_step(v@, (n - i) as nat, d@, ask_parser());
        }
        match take_ask(d) {
            Ok(x) => {
                v.push(x);
            },
            Err(e) => {
                return Err(e);
            },
        }
        i += 1;
    }
    proof {
        parse::lemma_list_done(v@, d@, ask_parser());
    }
    Ok(v)
}

fn take_reply(d: &mut Dec) -> (r: Result<Option<ProofEntry>, CodecError>)
    requires
        old(d).wf(),
    ensures
        final(d).wf(),
        (match r {
            Ok(x) => Ok((parse::viewed_option(x), final(d)@)),
            Err(e) => Err(e),
        }) == parse_reply(old(d)@),
{
    let present: u8 = match d.u8() {
        Ok(b) => b,
        Err(e) => {
            return Err(e);
        },
    };
    if present == 0 {
        Ok(None)
    } else if present == 1 {
        match take_bytes(d) {
            Ok(body) => match decode_proof_entry(body) {
                Ok(x) => Ok(Some(x)),
                Err(e) => Err(e),
            },
            Err(e) => Err(e),
        }
    } else {
        Err(CodecError::BadEnum(present as u32))
    }
}

fn take_replies(d: &mut Dec) -> (r: Result<Vec<Option<ProofEntry>>, CodecError>)
    requires
        old(d).wf(),
    ensures
        final(d).wf(),
        (match r {
            Ok(v) => Ok((entries_view(v@), final(d)@)),
            Err(e) => Err(e),
        }) == parse_proof_batch(old(d)@, reply_parser()),
{
    let n: u32 = match d.u32() {
        Ok(x) => x,
        Err(e) => {
            return Err(e);
        },
    };
    if n > MAX_PROOF_BATCH as u32 {
        return Err(CodecError::TooManyItems(n as u64));
    }
    let mut v: Vec<Option<ProofEntry>> = Vec::new();
    let ghost whole = parse::parse_list(n as nat, d@, reply_parser());
    let mut i: u32 = 0;
    proof {
        parse::lemma_list_start(whole);
        assert(entries_view(v@) =~= Seq::<Option<EntryView>>::empty());
    }
    while i < n
        invariant
            i <= n,
            d.wf(),
            whole == parse_proof_batch(old(d)@, reply_parser()),
            whole == parse::after(
                entries_view(v@),
                parse::parse_list((n - i) as nat, d@, reply_parser()),
            ),
        decreases n - i,
    {
        let ghost before = entries_view(v@);
        proof {
            parse::lemma_list_step(before, (n - i) as nat, d@, reply_parser());
        }
        match take_reply(d) {
            Ok(x) => {
                v.push(x);
                assert(entries_view(v@) =~= before.push(parse::viewed_option(x)));
            },
            Err(e) => {
                return Err(e);
            },
        }
        i += 1;
    }
    proof {
        parse::lemma_list_done(entries_view(v@), d@, reply_parser());
    }
    Ok(v)
}

fn take_body(tag: u8, d: &mut Dec) -> (r: Result<GossipMsg, CodecError>)
    requires
        old(d).wf(),
    ensures
        final(d).wf(),
        parse::outcome_view(r, final(d)@) == parse_body(tag, old(d)@),
{
    if tag == TAG_STATUS {
        match d.u64() {
            Ok(height) => Ok(GossipMsg::Status { height }),
            Err(e) => Err(e),
        }
    } else if tag == TAG_GETBLOCKS {
        match d.u64() {
            Ok(from) => Ok(GossipMsg::GetBlocks { from }),
            Err(e) => Err(e),
        }
    } else if tag == TAG_BLOCKS {
        match take_pairs(d) {
            Ok(batch) => Ok(GossipMsg::Blocks(batch)),
            Err(e) => Err(e),
        }
    } else if tag == TAG_TX {
        match take_bytes(d) {
            Ok(body) => match decode_tx(body) {
                Ok(t) => Ok(GossipMsg::Tx(t)),
                Err(e) => Err(e),
            },
            Err(e) => Err(e),
        }
    } else if tag == TAG_EVIDENCE {
        match take_bytes(d) {
            Ok(body) => match decode_evidence(body) {
                Ok(ev) => Ok(GossipMsg::Evidence(ev)),
                Err(e) => Err(e),
            },
            Err(e) => Err(e),
        }
    } else if tag == TAG_STAKEOP {
        match take_bytes(d) {
            Ok(body) => match decode_stakeop(body) {
                Ok(op) => Ok(GossipMsg::StakeOp(op)),
                Err(e) => Err(e),
            },
            Err(e) => Err(e),
        }
    } else if tag == TAG_GETHEADERS {
        match d.u64() {
            Ok(from) => Ok(GossipMsg::GetHeaders { from }),
            Err(e) => Err(e),
        }
    } else if tag == TAG_HEADERS {
        match take_headers(d) {
            Ok(batch) => Ok(GossipMsg::Headers(batch)),
            Err(e) => Err(e),
        }
    } else if tag == TAG_GETPROOF {
        match take_asks(d) {
            Ok(items) => Ok(GossipMsg::GetProof { items }),
            Err(e) => Err(e),
        }
    } else if tag == TAG_PROOF {
        match take_replies(d) {
            Ok(items) => Ok(GossipMsg::Proof { items }),
            Err(e) => Err(e),
        }
    } else {
        Err(CodecError::BadEnum(tag as u32))
    }
}

/// Decodes exactly one message.
pub fn decode_gossip(buf: &[u8]) -> (r: Result<GossipMsg, CodecError>)
    ensures
        parse::viewed(r) == parse_msg(buf@),
{
    let mut d = Dec::new(buf);
    let tag: u8 = match d.u8() {
        Ok(b) => b,
        Err(e) => {
            return Err(e);
        },
    };
    let m = match take_body(tag, &mut d) {
        Ok(m) => m,
        Err(e) => {
            return Err(e);
        },
    };
    if d.remaining() > 0 {
        return Err(CodecError::TrailingBytes);
    }
    Ok(m)
}

/// A message as it goes over a stream: its encoding behind a 32-bit length. None for
/// a message that is too long for that.
pub fn frame_msg(m: &GossipMsg) -> (r: Option<Vec<u8>>)
    ensures
        parse::viewed_option(r) == if frames(encoded_msg(m@)) {
            Some(framed(encoded_msg(m@)))
        } else {
            None
        },
{
    let body = encode_gossip(m);
    if body.len() > u32::MAX as usize {
        return None;
    }
    let mut out: Vec<u8> = Vec::new();
    put_bytes(&mut out, body.as_slice());
    assert(out@ =~= framed(body@));
    Some(out)
}

/// The message behind a length, and the bytes after it.
pub open spec fn parse_framed_msg(s: Seq<u8>) -> Parsed<MsgView> {
    match parse_frame(s) {
        Err(e) => Err(e),
        Ok((body, rest)) => match parse_msg(body) {
            Err(e) => Err(e),
            Ok(m) => Ok((m, rest)),
        },
    }
}

/// A framed message is read back from the front of a stream, which leaves what
/// follows it.
pub proof fn law_framed_msg_read_back(m: MsgView, rest: Seq<u8>)
    requires
        msg_within_limits(m),
        frames(encoded_msg(m)),
    ensures
        parse_framed_msg(framed(encoded_msg(m)) + rest) == Ok::<(MsgView, Seq<u8>), CodecError>(
            (canonical_msg(m), rest),
        ),
{
    law_frame_read_back(encoded_msg(m), rest);
    law_msg_round_trip(m);
}

/// A framed message cut short is refused because the input ends.
pub proof fn law_truncated_frame_is_refused(m: MsgView, n: int)
    requires
        frames(encoded_msg(m)),
        0 <= n < framed(encoded_msg(m)).len(),
    ensures
        parse_framed_msg(framed(encoded_msg(m)).take(n)) == Err::<(MsgView, Seq<u8>), CodecError>(
            CodecError::UnexpectedEof,
        ),
{
    let whole = framed(encoded_msg(m));
    let (cut, more) = (whole.take(n), whole.skip(n));
    let nothing = Seq::<u8>::empty();
    assert(cut + more =~= whole);
    assert(whole + nothing =~= whole);
    law_frame_read_back(encoded_msg(m), nothing);
    lemma_frame_carried(cut, more);
    parse::lemma_cut_short(parse_frame(cut), parse_frame(whole), more);
}

/// Reads a framed message from the front of a stream, and says how many bytes it
/// took.
pub fn unframe_msg(buf: &[u8]) -> (r: Result<(GossipMsg, usize), CodecError>)
    ensures
        match r {
            Ok((m, n)) => n <= buf@.len() && parse_framed_msg(buf@) == Ok::<
                (MsgView, Seq<u8>),
                CodecError,
            >((m@, buf@.skip(n as int))),
            Err(e) => parse_framed_msg(buf@) == Err::<(MsgView, Seq<u8>), CodecError>(e),
        },
{
    let mut d = Dec::new(buf);
    let body = match take_bytes(&mut d) {
        Ok(b) => b,
        Err(e) => {
            return Err(e);
        },
    };
    match decode_gossip(body) {
        Ok(m) => {
            assert(4 + body.len() <= buf.len());
            let n: usize = 4 + body.len();
            assert(d@ =~= buf@.skip(n as int));
            Ok((m, n))
        },
        Err(e) => Err(e),
    }
}

} // verus!
