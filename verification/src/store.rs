//! The append-only block log.
//!
//! A log is a sequence of records, each a big-endian 32-bit length followed by that
//! many bytes of an encoded block. A record cut short at the end of a log is
//! reported, never silently dropped.

use vstd::prelude::*;

use crate::bytes;
use crate::bytes::{push_be32, push_bytes, read_be32};
use crate::chain;
use crate::codec;
use crate::codec::{decode_block, encode_block};
use crate::graph::Judge;
use crate::parse;
use crate::parse::CodecError;
use crate::state::GenesisView;
use crate::tx::{Block, BlockView};

verus! {

/// Why a log could not be written or read.
#[derive(Clone, Copy, Debug, PartialEq, Eq)]
pub enum LogError {
    /// The encoding of a block is too long for its length prefix.
    TooLarge,
    /// The log ends inside a length prefix.
    TruncatedLength,
    /// The log ends inside a record.
    TruncatedRecord,
    /// A record does not hold a block.
    Codec(CodecError),
}

/// Whether a block's encoding is short enough for a record.
pub open spec fn recordable(b: BlockView) -> bool {
    codec::encoded_block(b).len() <= u32::MAX
}

/// The bytes of a block's record.
pub open spec fn record_bytes(b: BlockView) -> Seq<u8> {
    bytes::be32(codec::encoded_block(b).len() as u32) + codec::encoded_block(b)
}

pub open spec fn record_writer() -> spec_fn(BlockView) -> Seq<u8> {
    |b: BlockView| record_bytes(b)
}

/// The log that holds the given blocks.
pub open spec fn log_bytes(bs: Seq<BlockView>) -> Seq<u8> {
    parse::joined(bs, record_writer())
}

/// The blocks that a log holds.
pub open spec fn parse_log(s: Seq<u8>) -> Result<Seq<BlockView>, LogError>
    decreases s.len(),
{
    if s.len() == 0 {
        Ok(Seq::empty())
    } else if s.len() < 4 {
        Err(LogError::TruncatedLength)
    } else {
        let n = bytes::word32(s) as int;
        if s.len() - 4 < n {
            Err(LogError::TruncatedRecord)
        } else {
            match parse::parse_whole(codec::parse_block(s.subrange(4, 4 + n))) {
                Err(e) => Err(LogError::Codec(e)),
                Ok(b) => match parse_log(s.skip(4 + n)) {
                    Err(e) => Err(e),
                    Ok(bs) => Ok(seq![b] + bs),
                },
            }
        }
    }
}

/// Blocks read so far, put in front of the rest of a log.
pub open spec fn after(done: Seq<BlockView>, rest: Result<Seq<BlockView>, LogError>) -> Result<
    Seq<BlockView>,
    LogError,
> {
    match rest {
        Err(e) => Err(e),
        Ok(bs) => Ok(done + bs),
    }
}

/// Whether every block can be written to a log and read back.
pub open spec fn loggable(bs: Seq<BlockView>) -> bool {
    forall|i: int|
        0 <= i < bs.len() ==> codec::block_within_limits(#[trigger] bs[i]) && recordable(bs[i])
}

// --- laws ---------------------------------------------------------------------

/// Reading a record leaves the log after it.
proof fn lemma_record_read_back(b: BlockView, rest: Seq<u8>)
    requires
        codec::block_within_limits(b),
        recordable(b),
    ensures
        parse_log(record_bytes(b) + rest) == after(
            seq![codec::canonical_block(b)],
            parse_log(rest),
        ),
{
    let e = codec::encoded_block(b);
    let s = record_bytes(b) + rest;
    codec::lemma_regroup(bytes::be32(e.len() as u32), e, rest);
    bytes::lemma_be32_word32(e.len() as u32, e + rest);
    assert(s.subrange(4, 4 + e.len() as int) =~= e);
    assert(s.skip(4 + e.len() as int) =~= rest);
    codec::law_block_round_trip(b);
}

/// What was appended is read back, block for block and in order; what follows is
/// read after it.
pub proof fn law_log_read_back(bs: Seq<BlockView>, rest: Seq<u8>)
    requires
        loggable(bs),
    ensures
        parse_log(log_bytes(bs) + rest) == after(chain::canonical_blocks(bs), parse_log(rest)),
    decreases bs.len(),
{
    if bs.len() == 0 {
        assert(log_bytes(bs) + rest =~= rest);
        assert(chain::canonical_blocks(bs) =~= Seq::<BlockView>::empty());
        if let Ok(x) = parse_log(rest) {
            assert(Seq::<BlockView>::empty() + x =~= x);
        }
    } else {
        let tail = bs.skip(1);
        assert(codec::block_within_limits(bs[0]) && recordable(bs[0]));
        assert(log_bytes(bs) + rest =~= record_bytes(bs[0]) + (log_bytes(tail) + rest));
        lemma_record_read_back(bs[0], log_bytes(tail) + rest);
        assert(loggable(tail)) by {
            assert forall|i: int| 0 <= i < tail.len() implies codec::block_within_limits(
                #[trigger] tail[i],
            ) && recordable(tail[i]) by {
                assert(tail[i] == bs[i + 1]);
            }
        }
        law_log_read_back(tail, rest);
        let c = chain::canonical_blocks(bs);
        assert(c =~= seq![codec::canonical_block(bs[0])] + chain::canonical_blocks(tail));
        if let Ok(x) = parse_log(rest) {
            assert(c + x =~= seq![codec::canonical_block(bs[0])] + (chain::canonical_blocks(tail)
                + x));
        }
    }
}

/// A log whose last record was cut short anywhere is refused as truncated.
pub proof fn law_torn_tail_is_detected(bs: Seq<BlockView>, torn: BlockView, n: int)
    requires
        loggable(bs),
        recordable(torn),
        0 < n < record_bytes(torn).len(),
    ensures
        parse_log(log_bytes(bs) + record_bytes(torn).take(n)) == Err::<Seq<BlockView>, LogError>(
            if n < 4 {
                LogError::TruncatedLength
            } else {
                LogError::TruncatedRecord
            },
        ),
{
    let e = codec::encoded_block(torn);
    let cut = record_bytes(torn).take(n);
    law_log_read_back(bs, cut);
    bytes::lemma_be32_len(e.len() as u32);
    if n >= 4 {
        assert(cut =~= bytes::be32(e.len() as u32) + e.take(n - 4));
        bytes::lemma_be32_word32(e.len() as u32, e.take(n - 4));
    }
}

/// A chain replayed from its log is the chain that was logged: the same head, state
/// and hashes.
pub proof fn law_logged_chain_replays(judge: Judge, g: GenesisView, bs: Seq<BlockView>)
    requires
        loggable(bs),
        chain::canonical_blocks(bs) == bs,
    ensures
        parse_log(log_bytes(bs)) == Ok::<Seq<BlockView>, LogError>(bs),
        chain::replayed(judge, chain::genesis_chain(g), parse_log(log_bytes(bs))->Ok_0)
            == chain::replayed(judge, chain::genesis_chain(g), bs),
{
    law_log_read_back(bs, Seq::empty());
    assert(log_bytes(bs) + Seq::<u8>::empty() =~= log_bytes(bs));
    assert(bs + Seq::<BlockView>::empty() =~= bs);
}

// --- the log ------------------------------------------------------------------

/// The record of a block: its length, then its encoding.
pub fn encode_record(b: &Block) -> (r: Result<Vec<u8>, LogError>)
    ensures
        match r {
            Ok(v) => recordable(b@) && v@ == record_bytes(b@),
            Err(e) => !recordable(b@) && e == LogError::TooLarge,
        },
{
    let body = encode_block(b);
    if body.len() > u32::MAX as usize {
        return Err(LogError::TooLarge);
    }
    let mut out: Vec<u8> = Vec::new();
    push_be32(&mut out, body.len() as u32);
    push_bytes(&mut out, body.as_slice());
    assert(out@ =~= record_bytes(b@));
    Ok(out)
}

/// Decodes every record of a log, in order.
pub fn decode_log(buf: &[u8]) -> (r: Result<Vec<Block>, LogError>)
    ensures
        (match r {
            Ok(bs) => Ok(chain::blocks_view(bs@)),
            Err(e) => Err(e),
        }) == parse_log(buf@),
{
    let mut blocks: Vec<Block> = Vec::new();
    let mut pos: usize = 0;
    let ghost whole = parse_log(buf@);
    proof {
        assert(buf@.skip(0) =~= buf@);
        assert(chain::blocks_view(blocks@) =~= Seq::<BlockView>::empty());
        if let Ok(x) = whole {
            assert(Seq::<BlockView>::empty() + x =~= x);
        }
    }
    while pos < buf.len()
        invariant
            pos <= buf.len(),
            whole == parse_log(buf@),
            whole == after(chain::blocks_view(blocks@), parse_log(buf@.skip(pos as int))),
        decreases buf.len() - pos,
    {
        let ghost done = chain::blocks_view(blocks@);
        let ghost s = buf@.skip(pos as int);
        if buf.len() - pos < 4 {
            return Err(LogError::TruncatedLength);
        }
        let head = vstd::slice::slice_subrange(buf, pos, buf.len());
        assert(head@ =~= s);
        let n: usize = read_be32(head) as usize;
        if n > buf.len() - pos - 4 {
            return Err(LogError::TruncatedRecord);
        }
        let body = vstd::slice::slice_subrange(buf, pos + 4, pos + 4 + n);
        assert(body@ =~= s.subrange(4, 4 + n));
        assert(s.skip(4 + n) =~= buf@.skip(pos + 4 + n));
        match decode_block(body) {
            Ok(b) => {
                proof {
                    if let Ok(x) = parse_log(s.skip(4 + n)) {
                        assert(done + (seq![b@] + x) =~= done.push(b@) + x);
                    }
                }
                blocks.push(b);
                assert(chain::blocks_view(blocks@) =~= done.push(b@));
            },
            Err(e) => {
                return Err(LogError::Codec(e));
            },
        }
        pos = pos + 4 + n;
    }
    assert(chain::blocks_view(blocks@) + Seq::<BlockView>::empty() =~= chain::blocks_view(
        blocks@,
    ));
    Ok(blocks)
}

/// The contents of a block log.
pub struct BlockLog {
    bytes: Vec<u8>,
}

impl View for BlockLog {
    type V = Seq<u8>;

    closed spec fn view(&self) -> Seq<u8> {
        self.bytes@
    }
}

impl BlockLog {
    /// A log with the given contents; an empty vector is an empty log.
    pub fn open(bytes: Vec<u8>) -> (r: BlockLog)
        ensures
            r@ == bytes@,
    {
        BlockLog { bytes }
    }

    /// The contents.
    pub fn bytes(&self) -> (r: &[u8])
        ensures
            r@ == self@,
    {
        self.bytes.as_slice()
    }

    /// Appends one block as a record. A block that is too large changes nothing.
    pub fn append(&mut self, b: &Block) -> (r: Result<(), LogError>)
        ensures
            match r {
                Ok(()) => recordable(b@) && final(self)@ == old(self)@ + record_bytes(b@),
                Err(e) => {
                    &&& !recordable(b@)
                    &&& e == LogError::TooLarge
                    &&& final(self)@ == old(self)@
                },
            },
    {
        match encode_record(b) {
            Ok(record) => {
                push_bytes(&mut self.bytes, record.as_slice());
                Ok(())
            },
            Err(e) => Err(e),
        }
    }

    /// Decodes every record, in order. A record cut short is an error.
    pub fn read_all(&self) -> (r: Result<Vec<Block>, LogError>)
        ensures
            (match r {
                Ok(bs) => Ok(chain::blocks_view(bs@)),
                Err(e) => Err(e),
            }) == parse_log(self@),
    {
        decode_log(self.bytes.as_slice())
    }
}

} // verus!
