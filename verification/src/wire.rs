//! The canonical encoding of certificates, evidence, requests, headers and proved
//! entries.

use vstd::prelude::*;

use crate::bytes;
use crate::codec;
use crate::codec::Enc;
use crate::consensus;
use crate::consensus::{
    write_vote, BondKind, Commit, CommitView, SlashEvidence, StakeOp, Vote, VoteType,
};
use crate::graph::GraphNode;
use crate::ieee;
use crate::light::{
    BlockHeader, CertifiedHeader, CertifiedView, EntryView, ProofEntry, ProofKind,
};
use crate::merkle::{Proof, Step};
use crate::parse;
use crate::parse::{CodecError, Dec, Parsed, Parser, MAX_ITEMS};
use crate::roots;
use crate::state::Account;
use crate::validator;
use crate::validator::Validator;

verus! {

// --- votes and certificates ---------------------------------------------------

/// A voting step.
pub open spec fn parse_vote_type(s: Seq<u8>) -> Parsed<VoteType> {
    match parse::parse_u8(s) {
        Err(e) => Err(e),
        Ok((b, rest)) => if b == 0 {
            Ok((VoteType::Prevote, rest))
        } else if b == 1 {
            Ok((VoteType::Precommit, rest))
        } else {
            Err(CodecError::BadEnum(b as u32))
        },
    }
}

/// A vote.
pub open spec fn parse_vote(s: Seq<u8>) -> Parsed<Vote> {
    match parse::parse_u64(s) {
        Err(e) => Err(e),
        Ok((validator, s1)) => match parse::parse_u64(s1) {
            Err(e) => Err(e),
            Ok((height, s2)) => match parse::parse_u32(s2) {
                Err(e) => Err(e),
                Ok((round, s3)) => match parse::parse_array::<32>(s3) {
                    Err(e) => Err(e),
                    Ok((block_hash, s4)) => match parse_vote_type(s4) {
                        Err(e) => Err(e),
                        Ok((vote_type, s5)) => match parse::parse_array::<64>(s5) {
                            Err(e) => Err(e),
                            Ok((signature, s6)) => Ok(
                                (
                                    Vote {
                                        validator,
                                        height,
                                        round,
                                        block_hash,
                                        vote_type,
                                        signature,
                                    },
                                    s6,
                                ),
                            ),
                        },
                    },
                },
            },
        },
    }
}

pub open spec fn vote_writer() -> spec_fn(Vote) -> Seq<u8> {
    |v: Vote| consensus::vote_bytes(v)
}

pub open spec fn vote_parser() -> Parser<Vote> {
    |s: Seq<u8>| parse_vote(s)
}

/// The canonical bytes of a certificate.
pub open spec fn commit_bytes(c: CommitView) -> Seq<u8> {
    bytes::be64(c.height) + bytes::be32(c.round) + c.block_hash@ + bytes::be64(
        c.precommits.len() as u64,
    ) + parse::joined(c.precommits, vote_writer())
}

/// A certificate.
pub open spec fn parse_commit(s: Seq<u8>) -> Parsed<CommitView> {
    match parse::parse_u64(s) {
        Err(e) => Err(e),
        Ok((height, s1)) => match parse::parse_u32(s1) {
            Err(e) => Err(e),
            Ok((round, s2)) => match parse::parse_array::<32>(s2) {
                Err(e) => Err(e),
                Ok((block_hash, s3)) => match parse::parse_count(s3) {
                    Err(e) => Err(e),
                    Ok((n, s4)) => match parse::parse_list(n as nat, s4, vote_parser()) {
                        Err(e) => Err(e),
                        Ok((precommits, s5)) => Ok(
                            (CommitView { height, round, block_hash, precommits }, s5),
                        ),
                    },
                },
            },
        },
    }
}

/// Whether a certificate is short enough to be decoded.
pub open spec fn commit_within_limits(c: CommitView) -> bool {
    c.precommits.len() <= MAX_ITEMS
}

/// Decoding the bytes of a vote gives the vote back.
pub proof fn law_vote_read_back(v: Vote, rest: Seq<u8>)
    ensures
        parse_vote(consensus::vote_bytes(v) + rest) == Ok::<(Vote, Seq<u8>), CodecError>((v, rest)),
{
    broadcast use codec::lemma_regroup;

    let s5 = v.signature@ + rest;
    let kind = seq![consensus::vote_type_byte(v.vote_type)];
    let s4 = kind + s5;
    let s3 = v.block_hash@ + s4;
    let s2 = bytes::be32(v.round) + s3;
    let s1 = bytes::be64(v.height) + s2;
    assert(consensus::vote_bytes(v) + rest == bytes::be64(v.validator) + s1);
    bytes::lemma_be64_word64(v.validator, s1);
    bytes::lemma_be64_word64(v.height, s2);
    bytes::lemma_be32_word32(v.round, s3);
    parse::lemma_array_read_back(v.block_hash, s4);
    assert(s4[0] == kind[0]);
    assert(s4.skip(1) =~= s5);
    parse::lemma_array_read_back(v.signature, rest);
}

/// Decoding the bytes of a certificate gives the certificate back.
pub proof fn law_commit_read_back(c: CommitView, rest: Seq<u8>)
    requires
        commit_within_limits(c),
    ensures
        parse_commit(commit_bytes(c) + rest) == Ok::<(CommitView, Seq<u8>), CodecError>((c, rest)),
{
    let votes = parse::joined(c.precommits, vote_writer());
    let n = bytes::be64(c.precommits.len() as u64);
    codec::lemma_regroup_five(
        bytes::be64(c.height),
        bytes::be32(c.round),
        c.block_hash@,
        n,
        votes,
        rest,
    );
    bytes::lemma_be64_word64(
        c.height,
        bytes::be32(c.round) + (c.block_hash@ + (n + (votes + rest))),
    );
    bytes::lemma_be32_word32(c.round, c.block_hash@ + (n + (votes + rest)));
    parse::lemma_array_read_back(c.block_hash, n + (votes + rest));
    bytes::lemma_be64_word64(c.precommits.len() as u64, votes + rest);
    assert forall|i: int, after: Seq<u8>|
        0 <= i < c.precommits.len() implies #[trigger] vote_parser()(
        vote_writer()(c.precommits[i]) + after,
    ) == Ok::<(Vote, Seq<u8>), CodecError>((c.precommits[i], after)) by {
        law_vote_read_back(c.precommits[i], after);
    }
    parse::lemma_list_read_back(c.precommits, rest, vote_writer(), vote_parser());
}

fn read_vote_type(d: &mut Dec) -> (r: Result<VoteType, CodecError>)
    requires
        old(d).wf(),
    ensures
        final(d).wf(),
        parse::outcome(r, final(d)@) == parse_vote_type(old(d)@),
{
    match d.u8() {
        Ok(b) => if b == 0 {
            Ok(VoteType::Prevote)
        } else if b == 1 {
            Ok(VoteType::Precommit)
        } else {
            Err(CodecError::BadEnum(b as u32))
        },
        Err(e) => Err(e),
    }
}

fn read_vote(d: &mut Dec) -> (r: Result<Vote, CodecError>)
    requires
        old(d).wf(),
    ensures
        final(d).wf(),
        parse::outcome(r, final(d)@) == parse_vote(old(d)@),
{
    let validator: u64 = match d.u64() {
        Ok(x) => x,
        Err(e) => {
            return Err(e);
        },
    };
    let height: u64 = match d.u64() {
        Ok(x) => x,
        Err(e) => {
            return Err(e);
        },
    };
    let round: u32 = match d.u32() {
        Ok(x) => x,
        Err(e) => {
            return Err(e);
        },
    };
    let block_hash = match d.array::<32>() {
        Ok(x) => x,
        Err(e) => {
            return Err(e);
        },
    };
    let vote_type = match read_vote_type(d) {
        Ok(x) => x,
        Err(e) => {
            return Err(e);
        },
    };
    let signature = match d.array::<64>() {
        Ok(x) => x,
        Err(e) => {
            return Err(e);
        },
    };
    Ok(Vote { validator, height, round, block_hash, vote_type, signature })
}

fn read_commit(d: &mut Dec) -> (r: Result<Commit, CodecError>)
    requires
        old(d).wf(),
    ensures
        final(d).wf(),
        parse::outcome_view(r, final(d)@) == parse_commit(old(d)@),
{
    let height: u64 = match d.u64() {
        Ok(x) => x,
        Err(e) => {
            return Err(e);
        },
    };
    let round: u32 = match d.u32() {
        Ok(x) => x,
        Err(e) => {
            return Err(e);
        },
    };
    let block_hash = match d.array::<32>() {
        Ok(x) => x,
        Err(e) => {
            return Err(e);
        },
    };
    let n: u64 = match d.count() {
        Ok(x) => x,
        Err(e) => {
            return Err(e);
        },
    };
    let ghost start = d@;
    let ghost whole = parse::parse_list(n as nat, start, vote_parser());
    let mut precommits: Vec<Vote> = Vec::new();
    let mut i: u64 = 0;
    proof {
        parse::lemma_list_start(whole);
    }
    while i < n
        invariant
            i <= n,
            d.wf(),
            whole == parse::after(
                precommits@,
                parse::parse_list((n - i) as nat, d@, vote_parser()),
            ),
            whole is Err ==> parse_commit(old(d)@) == Err::<(CommitView, Seq<u8>), CodecError>(
                whole->Err_0,
            ),
        decreases n - i,
    {
        proof {
            parse::lemma_list_step(precommits@, (n - i) as nat, d@, vote_parser());
        }
        match read_vote(d) {
            Ok(v) => {
                precommits.push(v);
            },
            Err(e) => {
                return Err(e);
            },
        }
        i += 1;
    }
    proof {
        parse::lemma_list_done(precommits@, d@, vote_parser());
    }
    Ok(Commit { height, round, block_hash, precommits })
}

fn write_commit(e: &mut Enc, c: &Commit)
    ensures
        final(e)@ == old(e)@ + commit_bytes(c@),
{
    e.u64(c.height);
    e.u32(c.round);
    e.raw(c.block_hash.as_slice());
    e.u64(c.precommits.len() as u64);
    let ghost head = e@;
    let ghost votes = c.precommits@;
    let mut i: usize = 0;
    assert(head + parse::joined(votes.take(0), vote_writer()) =~= head);
    while i < c.precommits.len()
        invariant
            i <= c.precommits.len(),
            votes == c.precommits@,
            e@ == head + parse::joined(votes.take(i as int), vote_writer()),
        decreases c.precommits.len() - i,
    {
        proof {
            parse::lemma_joined_take(votes, i as int, vote_writer());
            codec::lemma_regroup(
                head,
                parse::joined(votes.take(i as int), vote_writer()),
                consensus::vote_bytes(votes[i as int]),
            );
        }
        write_vote(e, &c.precommits[i]);
        i += 1;
    }
    proof {
        assert(votes.take(i as int) =~= votes);
        lemma_appended_five(
            old(e)@,
            bytes::be64(c@.height),
            bytes::be32(c@.round),
            c@.block_hash@,
            bytes::be64(votes.len() as u64),
            parse::joined(votes, vote_writer()),
        );
    }
}

proof fn lemma_appended_five(
    s: Seq<u8>,
    a: Seq<u8>,
    b: Seq<u8>,
    c: Seq<u8>,
    d: Seq<u8>,
    e: Seq<u8>,
)
    ensures
        s + a + b + c + d + e == s + (a + b + c + d + e),
{
    broadcast use codec::lemma_regroup;

}

/// The canonical bytes of a certificate.
pub fn encode_commit(c: &Commit) -> (r: Vec<u8>)
    ensures
        r@ == commit_bytes(c@),
{
    let mut e = Enc::new();
    write_commit(&mut e, c);
    assert(e@ =~= commit_bytes(c@));
    e.0
}

/// Decodes exactly one certificate.
pub fn decode_commit(buf: &[u8]) -> (r: Result<Commit, CodecError>)
    ensures
        parse::viewed(r) == parse::parse_whole(parse_commit(buf@)),
{
    let mut d = Dec::new(buf);
    let x = match read_commit(&mut d) {
        Ok(x) => x,
        Err(e) => {
            return Err(e);
        },
    };
    if d.remaining() > 0 {
        return Err(CodecError::TrailingBytes);
    }
    Ok(x)
}

// --- evidence and requests ----------------------------------------------------

/// A piece of evidence.
pub open spec fn parse_evidence(s: Seq<u8>) -> Parsed<SlashEvidence> {
    match parse_vote(s) {
        Err(e) => Err(e),
        Ok((vote_a, s1)) => match parse_vote(s1) {
            Err(e) => Err(e),
            Ok((vote_b, s2)) => Ok((SlashEvidence { vote_a, vote_b }, s2)),
        },
    }
}

/// Decoding the bytes of a piece of evidence gives it back.
pub proof fn law_evidence_read_back(ev: SlashEvidence, rest: Seq<u8>)
    ensures
        parse_evidence(consensus::evidence_bytes(ev) + rest) == Ok::<
            (SlashEvidence, Seq<u8>),
            CodecError,
        >((ev, rest)),
{
    let a = consensus::vote_bytes(ev.vote_a);
    let b = consensus::vote_bytes(ev.vote_b);
    codec::lemma_regroup(a, b, rest);
    law_vote_read_back(ev.vote_a, b + rest);
    law_vote_read_back(ev.vote_b, rest);
}

/// Decodes exactly one piece of evidence.
pub fn decode_evidence(buf: &[u8]) -> (r: Result<SlashEvidence, CodecError>)
    ensures
        r == parse::parse_whole(parse_evidence(buf@)),
{
    let mut d = Dec::new(buf);
    let vote_a = match read_vote(&mut d) {
        Ok(x) => x,
        Err(e) => {
            return Err(e);
        },
    };
    let vote_b = match read_vote(&mut d) {
        Ok(x) => x,
        Err(e) => {
            return Err(e);
        },
    };
    if d.remaining() > 0 {
        return Err(CodecError::TrailingBytes);
    }
    Ok(SlashEvidence { vote_a, vote_b })
}

/// A bonding request.
pub open spec fn parse_stakeop(s: Seq<u8>) -> Parsed<StakeOp> {
    match parse::parse_u64(s) {
        Err(e) => Err(e),
        Ok((account, s1)) => match parse::parse_u8(s1) {
            Err(e) => Err(e),
            Ok((b, s2)) => if b > 1 {
                Err(CodecError::BadEnum(b as u32))
            } else {
                let kind = if b == 0 {
                    BondKind::Bond
                } else {
                    BondKind::Unbond
                };
                match parse::parse_u64(s2) {
                    Err(e) => Err(e),
                    Ok((amount, s3)) => match parse::parse_array::<64>(s3) {
                        Err(e) => Err(e),
                        Ok((signature, s4)) => Ok(
                            (StakeOp { account, kind, amount, signature }, s4),
                        ),
                    },
                }
            },
        },
    }
}

/// Decoding the bytes of a request gives it back.
pub proof fn law_stakeop_read_back(op: StakeOp, rest: Seq<u8>)
    ensures
        parse_stakeop(consensus::stake_op_bytes(op) + rest) == Ok::<(StakeOp, Seq<u8>), CodecError>(
            (op, rest),
        ),
{
    broadcast use codec::lemma_regroup;

    let s3 = op.signature@ + rest;
    let s2 = bytes::be64(op.amount) + s3;
    let kind = seq![consensus::bond_kind_byte(op.kind)];
    let s1 = kind + s2;
    assert(consensus::stake_op_bytes(op) + rest == bytes::be64(op.account) + s1);
    bytes::lemma_be64_word64(op.account, s1);
    assert(s1[0] == kind[0]);
    assert(s1.skip(1) =~= s2);
    bytes::lemma_be64_word64(op.amount, s3);
    parse::lemma_array_read_back(op.signature, rest);
}

/// Decodes exactly one request.
pub fn decode_stakeop(buf: &[u8]) -> (r: Result<StakeOp, CodecError>)
    ensures
        r == parse::parse_whole(parse_stakeop(buf@)),
{
    let mut d = Dec::new(buf);
    let account: u64 = match d.u64() {
        Ok(x) => x,
        Err(e) => {
            return Err(e);
        },
    };
    let kind = match d.u8() {
        Ok(b) => if b == 0 {
            BondKind::Bond
        } else if b == 1 {
            BondKind::Unbond
        } else {
            return Err(CodecError::BadEnum(b as u32));
        },
        Err(e) => {
            return Err(e);
        },
    };
    let amount: u64 = match d.u64() {
        Ok(x) => x,
        Err(e) => {
            return Err(e);
        },
    };
    let signature = match d.array::<64>() {
        Ok(x) => x,
        Err(e) => {
            return Err(e);
        },
    };
    if d.remaining() > 0 {
        return Err(CodecError::TrailingBytes);
    }
    Ok(StakeOp { account, kind, amount, signature })
}

// --- headers ------------------------------------------------------------------

/// The bytes of a header.
pub open spec fn header_bytes(h: BlockHeader) -> Seq<u8> {
    bytes::be64(h.height) + h.prev_hash@ + bytes::be32(h.timestamp_days) + h.block_hash@
}

/// A header with a NaN made canonical.
pub open spec fn canonical_header(h: BlockHeader) -> BlockHeader {
    BlockHeader { timestamp_days: ieee::canonical(h.timestamp_days), ..h }
}

/// A certified header with a NaN made canonical.
pub open spec fn canonical_certified(c: CertifiedView) -> CertifiedView {
    CertifiedView { header: canonical_header(c.header), cert: c.cert }
}

/// The bytes of a certified header.
pub open spec fn certified_bytes(c: CertifiedView) -> Seq<u8> {
    header_bytes(c.header) + commit_bytes(c.cert)
}

/// A header.
pub open spec fn parse_header(s: Seq<u8>) -> Parsed<BlockHeader> {
    match parse::parse_u64(s) {
        Err(e) => Err(e),
        Ok((height, s1)) => match parse::parse_array::<32>(s1) {
            Err(e) => Err(e),
            Ok((prev_hash, s2)) => match parse::parse_u32(s2) {
                Err(e) => Err(e),
                Ok((timestamp_days, s3)) => match parse::parse_array::<32>(s3) {
                    Err(e) => Err(e),
                    Ok((block_hash, s4)) => Ok(
                        (BlockHeader { height, prev_hash, timestamp_days, block_hash }, s4),
                    ),
                },
            },
        },
    }
}

/// A certified header.
pub open spec fn parse_certified(s: Seq<u8>) -> Parsed<CertifiedView> {
    match parse_header(s) {
        Err(e) => Err(e),
        Ok((header, s1)) => match parse_commit(s1) {
            Err(e) => Err(e),
            Ok((cert, s2)) => Ok((CertifiedView { header, cert }, s2)),
        },
    }
}

/// Decoding the bytes of a certified header gives it back.
pub proof fn law_certified_read_back(c: CertifiedView, rest: Seq<u8>)
    requires
        commit_within_limits(c.cert),
    ensures
        parse_certified(certified_bytes(c) + rest) == Ok::<(CertifiedView, Seq<u8>), CodecError>(
            (c, rest),
        ),
{
    let h = c.header;
    let s4 = commit_bytes(c.cert) + rest;
    let s3 = h.block_hash@ + s4;
    let s2 = bytes::be32(h.timestamp_days) + s3;
    let s1 = h.prev_hash@ + s2;
    codec::lemma_regroup_five(
        bytes::be64(h.height),
        h.prev_hash@,
        bytes::be32(h.timestamp_days),
        h.block_hash@,
        commit_bytes(c.cert),
        rest,
    );
    assert(certified_bytes(c) + rest == bytes::be64(h.height) + s1);
    bytes::lemma_be64_word64(h.height, s1);
    parse::lemma_array_read_back(h.prev_hash, s2);
    bytes::lemma_be32_word32(h.timestamp_days, s3);
    parse::lemma_array_read_back(h.block_hash, s4);
    law_commit_read_back(c.cert, rest);
}

/// The canonical bytes of a certified header.
pub fn encode_certified_header(c: &CertifiedHeader) -> (r: Vec<u8>)
    ensures
        r@ == certified_bytes(canonical_certified(c@)),
{
    let mut e = Enc::new();
    e.u64(c.header.height);
    e.raw(c.header.prev_hash.as_slice());
    e.binary32(c.header.timestamp_days);
    e.raw(c.header.block_hash.as_slice());
    assert(e@ =~= header_bytes(canonical_header(c.header)));
    write_commit(&mut e, &c.cert);
    e.0
}

/// Decodes exactly one certified header.
pub fn decode_certified_header(buf: &[u8]) -> (r: Result<CertifiedHeader, CodecError>)
    ensures
        parse::viewed(r) == parse::parse_whole(parse_certified(buf@)),
{
    let mut d = Dec::new(buf);
    let height: u64 = match d.u64() {
        Ok(x) => x,
        Err(e) => {
            return Err(e);
        },
    };
    let prev_hash = match d.array::<32>() {
        Ok(x) => x,
        Err(e) => {
            return Err(e);
        },
    };
    let timestamp_days: u32 = match d.u32() {
        Ok(x) => x,
        Err(e) => {
            return Err(e);
        },
    };
    let block_hash = match d.array::<32>() {
        Ok(x) => x,
        Err(e) => {
            return Err(e);
        },
    };
    let cert = match read_commit(&mut d) {
        Ok(x) => x,
        Err(e) => {
            return Err(e);
        },
    };
    if d.remaining() > 0 {
        return Err(CodecError::TrailingBytes);
    }
    Ok(
        CertifiedHeader {
            header: BlockHeader { height, prev_hash, timestamp_days, block_hash },
            cert,
        },
    )
}

// --- proved entries -----------------------------------------------------------

/// The byte that stands for a kind of entry.
pub open spec fn proof_kind_byte(k: ProofKind) -> u8 {
    match k {
        ProofKind::Account => 0,
        ProofKind::Reviewer => 1,
        ProofKind::Validator => 2,
        ProofKind::GraphNode => 3,
    }
}

/// The kind of entry that a byte stands for.
pub open spec fn proof_kind_of(b: u8) -> Result<ProofKind, CodecError> {
    if b == 0 {
        Ok(ProofKind::Account)
    } else if b == 1 {
        Ok(ProofKind::Reviewer)
    } else if b == 2 {
        Ok(ProofKind::Validator)
    } else if b == 3 {
        Ok(ProofKind::GraphNode)
    } else {
        Err(CodecError::BadEnum(b as u32))
    }
}

/// The byte that stands for a kind of entry.
pub fn encode_proof_kind(k: ProofKind) -> (r: u8)
    ensures
        r == proof_kind_byte(k),
{
    match k {
        ProofKind::Account => 0,
        ProofKind::Reviewer => 1,
        ProofKind::Validator => 2,
        ProofKind::GraphNode => 3,
    }
}

/// The kind of entry that a byte stands for.
pub fn decode_proof_kind(b: u8) -> (r: Result<ProofKind, CodecError>)
    ensures
        r == proof_kind_of(b),
{
    if b == 0 {
        Ok(ProofKind::Account)
    } else if b == 1 {
        Ok(ProofKind::Reviewer)
    } else if b == 2 {
        Ok(ProofKind::Validator)
    } else if b == 3 {
        Ok(ProofKind::GraphNode)
    } else {
        Err(CodecError::BadEnum(b as u32))
    }
}

/// The bytes of one step of a path.
pub open spec fn step_bytes(s: Step) -> Seq<u8> {
    match s {
        Step::Left(h) => seq![0u8] + h@,
        Step::Right(h) => seq![1u8] + h@,
    }
}

pub open spec fn step_writer() -> spec_fn(Step) -> Seq<u8> {
    |s: Step| step_bytes(s)
}

/// One step of a path.
pub open spec fn parse_step(s: Seq<u8>) -> Parsed<Step> {
    match parse::parse_u8(s) {
        Err(e) => Err(e),
        Ok((b, s1)) => if b > 1 {
            Err(CodecError::BadEnum(b as u32))
        } else {
            match parse::parse_array::<32>(s1) {
                Err(e) => Err(e),
                Ok((h, s2)) => Ok(
                    (
                        if b == 0 {
                            Step::Left(h)
                        } else {
                            Step::Right(h)
                        },
                        s2,
                    ),
                ),
            }
        },
    }
}

pub open spec fn step_parser() -> Parser<Step> {
    |s: Seq<u8>| parse_step(s)
}

/// The bytes of a path.
pub open spec fn path_bytes(p: Seq<Step>) -> Seq<u8> {
    bytes::be64(p.len() as u64) + parse::joined(p, step_writer())
}

/// A path.
pub open spec fn parse_path(s: Seq<u8>) -> Parsed<Seq<Step>> {
    match parse::parse_count(s) {
        Err(e) => Err(e),
        Ok((n, s1)) => parse::parse_list(n as nat, s1, step_parser()),
    }
}

/// Decoding the bytes of a path gives the path back.
pub proof fn law_path_read_back(p: Seq<Step>, rest: Seq<u8>)
    requires
        p.len() <= MAX_ITEMS,
    ensures
        parse_path(path_bytes(p) + rest) == Ok::<(Seq<Step>, Seq<u8>), CodecError>((p, rest)),
{
    let steps = parse::joined(p, step_writer());
    codec::lemma_regroup(bytes::be64(p.len() as u64), steps, rest);
    bytes::lemma_be64_word64(p.len() as u64, steps + rest);
    assert forall|i: int, after: Seq<u8>|
        0 <= i < p.len() implies #[trigger] step_parser()(step_writer()(p[i]) + after) == Ok::<
        (Step, Seq<u8>),
        CodecError,
    >((p[i], after)) by {
        match p[i] {
            Step::Left(h) => {
                let s = seq![0u8] + h@ + after;
                assert(s.skip(1) =~= h@ + after);
                parse::lemma_array_read_back(h, after);
            },
            Step::Right(h) => {
                let s = seq![1u8] + h@ + after;
                assert(s.skip(1) =~= h@ + after);
                parse::lemma_array_read_back(h, after);
            },
        }
    }
    parse::lemma_list_read_back(p, rest, step_writer(), step_parser());
}

fn write_path(e: &mut Enc, p: &Proof)
    ensures
        final(e)@ == old(e)@ + path_bytes(p@),
{
    e.u64(p.steps.len() as u64);
    let ghost head = e@;
    let ghost steps = p.steps@;
    let mut i: usize = 0;
    assert(head + parse::joined(steps.take(0), step_writer()) =~= head);
    while i < p.steps.len()
        invariant
            i <= p.steps.len(),
            steps == p.steps@,
            e@ == head + parse::joined(steps.take(i as int), step_writer()),
        decreases p.steps.len() - i,
    {
        let ghost before = e@;
        match &p.steps[i] {
            Step::Left(h) => {
                e.0.push(0);
                e.raw(h.as_slice());
            },
            Step::Right(h) => {
                e.0.push(1);
                e.raw(h.as_slice());
            },
        }
        proof {
            assert(e@ =~= before + step_bytes(steps[i as int]));
            parse::lemma_joined_take(steps, i as int, step_writer());
            codec::lemma_regroup(
                head,
                parse::joined(steps.take(i as int), step_writer()),
                step_bytes(steps[i as int]),
            );
        }
        i += 1;
    }
    proof {
        assert(steps.take(i as int) =~= steps);
        codec::lemma_regroup(
            old(e)@,
            bytes::be64(steps.len() as u64),
            parse::joined(steps, step_writer()),
        );
    }
}

fn read_step(d: &mut Dec) -> (r: Result<Step, CodecError>)
    requires
        old(d).wf(),
    ensures
        final(d).wf(),
        parse::outcome(r, final(d)@) == parse_step(old(d)@),
{
    let b: u8 = match d.u8() {
        Ok(x) => x,
        Err(e) => {
            return Err(e);
        },
    };
    if b > 1 {
        return Err(CodecError::BadEnum(b as u32));
    }
    match d.array::<32>() {
        Ok(h) => if b == 0 {
            Ok(Step::Left(h))
        } else {
            Ok(Step::Right(h))
        },
        Err(e) => Err(e),
    }
}

fn read_path(d: &mut Dec) -> (r: Result<Proof, CodecError>)
    requires
        old(d).wf(),
    ensures
        final(d).wf(),
        parse::outcome_view(r, final(d)@) == parse_path(old(d)@),
{
    let n: u64 = match d.count() {
        Ok(x) => x,
        Err(e) => {
            return Err(e);
        },
    };
    let mut steps: Vec<Step> = Vec::new();
    let ghost whole = parse::parse_list(n as nat, d@, step_parser());
    let mut i: u64 = 0;
    proof {
        parse::lemma_list_start(whole);
    }
    while i < n
        invariant
            i <= n,
            d.wf(),
            whole == parse_path(old(d)@),
            whole == parse::after(
                steps@,
                parse::parse_list((n - i) as nat, d@, step_parser()),
            ),
        decreases n - i,
    {
        proof {
            parse::lemma_list_step(steps@, (n - i) as nat, d@, step_parser());
        }
        match read_step(d) {
            Ok(x) => {
                steps.push(x);
            },
            Err(e) => {
                return Err(e);
            },
        }
        i += 1;
    }
    proof {
        parse::lemma_list_done(steps@, d@, step_parser());
    }
    Ok(Proof { steps })
}

/// An account under its id.
pub open spec fn parse_account(s: Seq<u8>) -> Parsed<(u64, Account)> {
    match parse::parse_u64(s) {
        Err(e) => Err(e),
        Ok((id, s1)) => match parse::parse_array::<32>(s1) {
            Err(e) => Err(e),
            Ok((pubkey, s2)) => match parse::parse_u64(s2) {
                Err(e) => Err(e),
                Ok((balance, s3)) => match parse::parse_u64(s3) {
                    Err(e) => Err(e),
                    Ok((staked_total, s4)) => match parse::parse_u64(s4) {
                        Err(e) => Err(e),
                        Ok((earned_total, s5)) => match parse::parse_u64(s5) {
                            Err(e) => Err(e),
                            Ok((slashed_total, s6)) => match parse::parse_u64(s6) {
                                Err(e) => Err(e),
                                Ok((submissions, s7)) => match parse::parse_u64(s7) {
                                    Err(e) => Err(e),
                                    Ok((accepted, s8)) => Ok(
                                        (
                                            (
                                                id,
                                                Account {
                                                    pubkey,
                                                    balance,
                                                    staked_total,
                                                    earned_total,
                                                    slashed_total,
                                                    submissions,
                                                    accepted,
                                                },
                                            ),
                                            s8,
                                        ),
                                    ),
                                },
                            },
                        },
                    },
                },
            },
        },
    }
}

proof fn lemma_account_read_back(id: u64, a: Account, rest: Seq<u8>)
    ensures
        parse_account(roots::account_leaf(id, a) + rest) == Ok::<
            ((u64, Account), Seq<u8>),
            CodecError,
        >(((id, a), rest)),
{
    broadcast use codec::lemma_regroup;

    let s7 = bytes::be64(a.accepted) + rest;
    let s6 = bytes::be64(a.submissions) + s7;
    let s5 = bytes::be64(a.slashed_total) + s6;
    let s4 = bytes::be64(a.earned_total) + s5;
    let s3 = bytes::be64(a.staked_total) + s4;
    let s2 = bytes::be64(a.balance) + s3;
    let s1 = a.pubkey@ + s2;
    assert(roots::account_leaf(id, a) + rest == bytes::be64(id) + s1);
    bytes::lemma_be64_word64(id, s1);
    parse::lemma_array_read_back(a.pubkey, s2);
    bytes::lemma_be64_word64(a.balance, s3);
    bytes::lemma_be64_word64(a.staked_total, s4);
    bytes::lemma_be64_word64(a.earned_total, s5);
    bytes::lemma_be64_word64(a.slashed_total, s6);
    bytes::lemma_be64_word64(a.submissions, s7);
    bytes::lemma_be64_word64(a.accepted, rest);
}

fn read_account(d: &mut Dec) -> (r: Result<(u64, Account), CodecError>)
    requires
        old(d).wf(),
    ensures
        final(d).wf(),
        parse::outcome(r, final(d)@) == parse_account(old(d)@),
{
    let id: u64 = match d.u64() {
        Ok(x) => x,
        Err(e) => {
            return Err(e);
        },
    };
    let pubkey = match d.array::<32>() {
        Ok(x) => x,
        Err(e) => {
            return Err(e);
        },
    };
    let balance: u64 = match d.u64() {
        Ok(x) => x,
        Err(e) => {
            return Err(e);
        },
    };
    let staked_total: u64 = match d.u64() {
        Ok(x) => x,
        Err(e) => {
            return Err(e);
        },
    };
    let earned_total: u64 = match d.u64() {
        Ok(x) => x,
        Err(e) => {
            return Err(e);
        },
    };
    let slashed_total: u64 = match d.u64() {
        Ok(x) => x,
        Err(e) => {
            return Err(e);
        },
    };
    let submissions: u64 = match d.u64() {
        Ok(x) => x,
        Err(e) => {
            return Err(e);
        },
    };
    let accepted: u64 = match d.u64() {
        Ok(x) => x,
        Err(e) => {
            return Err(e);
        },
    };
    Ok(
        (
            id,
            Account {
                pubkey,
                balance,
                staked_total,
                earned_total,
                slashed_total,
                submissions,
                accepted,
            },
        ),
    )
}

/// A validator.
pub open spec fn parse_validator(s: Seq<u8>) -> Parsed<Validator> {
    match parse::parse_u64(s) {
        Err(e) => Err(e),
        Ok((id, s1)) => match parse::parse_array::<32>(s1) {
            Err(e) => Err(e),
            Ok((pubkey, s2)) => match parse::parse_u64(s2) {
                Err(e) => Err(e),
                Ok((power, s3)) => Ok((Validator { id, pubkey, power }, s3)),
            },
        },
    }
}

fn read_validator(d: &mut Dec) -> (r: Result<Validator, CodecError>)
    requires
        old(d).wf(),
    ensures
        final(d).wf(),
        parse::outcome(r, final(d)@) == parse_validator(old(d)@),
{
    let id: u64 = match d.u64() {
        Ok(x) => x,
        Err(e) => {
            return Err(e);
        },
    };
    let pubkey = match d.array::<32>() {
        Ok(x) => x,
        Err(e) => {
            return Err(e);
        },
    };
    let power: u64 = match d.u64() {
        Ok(x) => x,
        Err(e) => {
            return Err(e);
        },
    };
    Ok(Validator { id, pubkey, power })
}

/// A graph node.
pub open spec fn parse_node(s: Seq<u8>) -> Parsed<GraphNode> {
    match parse::parse_u64(s) {
        Err(e) => Err(e),
        Ok((node_id, s1)) => match parse::parse_emb(s1) {
            Err(e) => Err(e),
            Ok((embedding, s2)) => match parse::parse_u32(s2) {
                Err(e) => Err(e),
                Ok((domain, s3)) => Ok((GraphNode { node_id, embedding, domain }, s3)),
            },
        },
    }
}

fn read_node(d: &mut Dec) -> (r: Result<GraphNode, CodecError>)
    requires
        old(d).wf(),
    ensures
        final(d).wf(),
        parse::outcome(r, final(d)@) == parse_node(old(d)@),
{
    let node_id: u64 = match d.u64() {
        Ok(x) => x,
        Err(e) => {
            return Err(e);
        },
    };
    let embedding = match d.emb() {
        Ok(x) => x,
        Err(e) => {
            return Err(e);
        },
    };
    let domain: u32 = match d.u32() {
        Ok(x) => x,
        Err(e) => {
            return Err(e);
        },
    };
    Ok(GraphNode { node_id, embedding, domain })
}

/// The bytes of a graph node as they stand.
pub open spec fn plain_node_bytes(n: GraphNode) -> Seq<u8> {
    bytes::be64(n.node_id) + (parse::emb_bytes(n.embedding) + bytes::be32(n.domain))
}

/// An entry with its NaNs made canonical.
pub open spec fn canonical_entry(e: EntryView) -> EntryView {
    match e {
        EntryView::Reviewer { id, reputation, path } => EntryView::Reviewer {
            id,
            reputation: ieee::canonical(reputation),
            path,
        },
        EntryView::GraphNode { node_id, graph_node, path } => EntryView::GraphNode {
            node_id,
            graph_node: GraphNode {
                embedding: parse::canonical_emb(graph_node.embedding),
                ..graph_node
            },
            path,
        },
        _ => e,
    }
}

/// The bytes of a proved entry: its kind, its id, its contents and its path.
pub open spec fn entry_bytes(e: EntryView) -> Seq<u8> {
    seq![proof_kind_byte(e.kind())] + match e {
        EntryView::Account { id, account, path } => roots::account_leaf(id, account) + path_bytes(
            path,
        ),
        EntryView::Reviewer { id, reputation, path } => bytes::be64(id) + bytes::be32(reputation)
            + path_bytes(path),
        EntryView::Validator { id, validator, path } => bytes::be64(id)
            + validator::validator_leaf(validator) + path_bytes(path),
        EntryView::GraphNode { node_id, graph_node, path } => bytes::be64(node_id)
            + plain_node_bytes(graph_node) + path_bytes(path),
    }
}

/// A proved entry of a known kind, after its kind byte.
pub open spec fn parse_entry_body(kind: ProofKind, s: Seq<u8>) -> Parsed<EntryView> {
    match kind {
        ProofKind::Account => match parse_account(s) {
            Err(e) => Err(e),
            Ok(((id, account), s1)) => match parse_path(s1) {
                Err(e) => Err(e),
                Ok((path, s2)) => Ok((EntryView::Account { id, account, path }, s2)),
            },
        },
        ProofKind::Reviewer => match parse::parse_u64(s) {
            Err(e) => Err(e),
            Ok((id, s1)) => match parse::parse_u32(s1) {
                Err(e) => Err(e),
                Ok((reputation, s2)) => match parse_path(s2) {
                    Err(e) => Err(e),
                    Ok((path, s3)) => Ok((EntryView::Reviewer { id, reputation, path }, s3)),
                },
            },
        },
        ProofKind::Validator => match parse::parse_u64(s) {
            Err(e) => Err(e),
            Ok((id, s1)) => match parse_validator(s1) {
                Err(e) => Err(e),
                Ok((validator, s2)) => match parse_path(s2) {
                    Err(e) => Err(e),
                    Ok((path, s3)) => Ok((EntryView::Validator { id, validator, path }, s3)),
                },
            },
        },
        ProofKind::GraphNode => match parse::parse_u64(s) {
            Err(e) => Err(e),
            Ok((node_id, s1)) => match parse_node(s1) {
                Err(e) => Err(e),
                Ok((graph_node, s2)) => match parse_path(s2) {
                    Err(e) => Err(e),
                    Ok((path, s3)) => Ok(
                        (EntryView::GraphNode { node_id, graph_node, path }, s3),
                    ),
                },
            },
        },
    }
}

/// A proved entry.
pub open spec fn parse_entry(s: Seq<u8>) -> Parsed<EntryView> {
    match parse::parse_u8(s) {
        Err(e) => Err(e),
        Ok((b, s1)) => match proof_kind_of(b) {
            Err(e) => Err(e),
            Ok(kind) => parse_entry_body(kind, s1),
        },
    }
}

/// Whether an entry's path is short enough to be decoded.
pub open spec fn entry_within_limits(e: EntryView) -> bool {
    e.path().len() <= MAX_ITEMS
}

/// Decoding the bytes of a proved entry gives it back.
pub proof fn law_entry_read_back(e: EntryView, rest: Seq<u8>)
    requires
        entry_within_limits(e),
    ensures
        parse_entry(entry_bytes(e) + rest) == Ok::<(EntryView, Seq<u8>), CodecError>((e, rest)),
{
    let tag = proof_kind_byte(e.kind());
    let path = path_bytes(e.path());
    let tail = path + rest;
    law_path_read_back(e.path(), rest);
    match e {
        EntryView::Account { id, account, path: _ } => {
            let a = roots::account_leaf(id, account);
            lemma_tagged(tag, a + path, rest);
            codec::lemma_regroup(a, path, rest);
            lemma_account_read_back(id, account, tail);
        },
        EntryView::Reviewer { id, reputation, path: _ } => {
            let (a, b) = (bytes::be64(id), bytes::be32(reputation));
            lemma_tagged(tag, a + b + path, rest);
            lemma_regroup_three(a, b, path, rest);
            bytes::lemma_be64_word64(id, b + tail);
            bytes::lemma_be32_word32(reputation, tail);
        },
        EntryView::Validator { id, validator, path: _ } => {
            let (a, b) = (bytes::be64(id), validator::validator_leaf(validator));
            lemma_tagged(tag, a + b + path, rest);
            lemma_regroup_three(a, b, path, rest);
            bytes::lemma_be64_word64(id, b + tail);
            lemma_validator_read_back(validator, tail);
        },
        EntryView::GraphNode { node_id, graph_node, path: _ } => {
            let (a, b) = (bytes::be64(node_id), plain_node_bytes(graph_node));
            lemma_tagged(tag, a + b + path, rest);
            lemma_regroup_three(a, b, path, rest);
            bytes::lemma_be64_word64(node_id, b + tail);
            lemma_node_read_back(graph_node, tail);
        },
    }
}

/// The first byte of tagged bytes is the tag.
pub proof fn lemma_tagged(tag: u8, body: Seq<u8>, rest: Seq<u8>)
    ensures
        parse::parse_u8(seq![tag] + body + rest) == Ok::<(u8, Seq<u8>), CodecError>(
            (tag, body + rest),
        ),
{
    assert((seq![tag] + body + rest).skip(1) =~= body + rest);
}

proof fn lemma_regroup_three(a: Seq<u8>, b: Seq<u8>, c: Seq<u8>, rest: Seq<u8>)
    ensures
        a + b + c + rest == a + (b + (c + rest)),
{
    broadcast use codec::lemma_regroup;

}

proof fn lemma_validator_read_back(v: Validator, rest: Seq<u8>)
    ensures
        parse_validator(validator::validator_leaf(v) + rest) == Ok::<
            (Validator, Seq<u8>),
            CodecError,
        >((v, rest)),
{
    broadcast use codec::lemma_regroup;

    bytes::lemma_be64_word64(v.id, v.pubkey@ + (bytes::be64(v.power) + rest));
    parse::lemma_array_read_back(v.pubkey, bytes::be64(v.power) + rest);
    bytes::lemma_be64_word64(v.power, rest);
}

proof fn lemma_node_read_back(n: GraphNode, rest: Seq<u8>)
    ensures
        parse_node(plain_node_bytes(n) + rest) == Ok::<(GraphNode, Seq<u8>), CodecError>((n, rest)),
{
    let emb = parse::emb_bytes(n.embedding);
    let domain = bytes::be32(n.domain);
    assert(plain_node_bytes(n) + rest =~= bytes::be64(n.node_id) + (emb + (domain + rest)));
    bytes::lemma_be64_word64(n.node_id, emb + (domain + rest));
    parse::lemma_emb_read_back(n.embedding, domain + rest);
    bytes::lemma_be32_word32(n.domain, rest);
}

/// The canonical bytes of a proved entry.
pub fn encode_proof_entry(x: &ProofEntry) -> (r: Vec<u8>)
    ensures
        r@ == entry_bytes(canonical_entry(x@)),
{
    let mut e = Enc::new();
    e.0.push(encode_proof_kind(x.kind()));
    match x {
        ProofEntry::Account { id, account, path } => {
            let leaf = account.merkle_leaf(*id);
            e.raw(leaf.as_slice());
            write_path(&mut e, path);
        },
        ProofEntry::Reviewer { id, reputation, path } => {
            e.u64(*id);
            e.binary32(*reputation);
            write_path(&mut e, path);
        },
        ProofEntry::Validator { id, validator, path } => {
            e.u64(*id);
            let leaf = validator.merkle_leaf();
            e.raw(leaf.as_slice());
            write_path(&mut e, path);
        },
        ProofEntry::GraphNode { node_id, graph_node, path } => {
            e.u64(*node_id);
            let leaf = graph_node.merkle_leaf();
            e.raw(leaf.as_slice());
            write_path(&mut e, path);
        },
    }
    assert(e@ =~= entry_bytes(canonical_entry(x@)));
    e.0
}

fn read_entry_body(kind: ProofKind, d: &mut Dec) -> (r: Result<ProofEntry, CodecError>)
    requires
        old(d).wf(),
    ensures
        final(d).wf(),
        parse::outcome_view(r, final(d)@) == parse_entry_body(kind, old(d)@),
{
    match kind {
        ProofKind::Account => {
            let (id, account) = match read_account(d) {
                Ok(x) => x,
                Err(e) => {
                    return Err(e);
                },
            };
            match read_path(d) {
                Ok(path) => Ok(ProofEntry::Account { id, account, path }),
                Err(e) => Err(e),
            }
        },
        ProofKind::Reviewer => {
            let id: u64 = match d.u64() {
                Ok(x) => x,
                Err(e) => {
                    return Err(e);
                },
            };
            let reputation: u32 = match d.u32() {
                Ok(x) => x,
                Err(e) => {
                    return Err(e);
                },
            };
            match read_path(d) {
                Ok(path) => Ok(ProofEntry::Reviewer { id, reputation, path }),
                Err(e) => Err(e),
            }
        },
        ProofKind::Validator => {
            let id: u64 = match d.u64() {
                Ok(x) => x,
                Err(e) => {
                    return Err(e);
                },
            };
            let validator = match read_validator(d) {
                Ok(x) => x,
                Err(e) => {
                    return Err(e);
                },
            };
            match read_path(d) {
                Ok(path) => Ok(ProofEntry::Validator { id, validator, path }),
                Err(e) => Err(e),
            }
        },
        ProofKind::GraphNode => {
            let node_id: u64 = match d.u64() {
                Ok(x) => x,
                Err(e) => {
                    return Err(e);
                },
            };
            let graph_node = match read_node(d) {
                Ok(x) => x,
                Err(e) => {
                    return Err(e);
                },
            };
            match read_path(d) {
                Ok(path) => Ok(ProofEntry::GraphNode { node_id, graph_node, path }),
                Err(e) => Err(e),
            }
        },
    }
}

/// Decodes exactly one proved entry.
pub fn decode_proof_entry(buf: &[u8]) -> (r: Result<ProofEntry, CodecError>)
    ensures
        parse::viewed(r) == parse::parse_whole(parse_entry(buf@)),
{
    let mut d = Dec::new(buf);
    let kind = match d.u8() {
        Ok(b) => match decode_proof_kind(b) {
            Ok(k) => k,
            Err(e) => {
                return Err(e);
            },
        },
        Err(e) => {
            return Err(e);
        },
    };
    let x = match read_entry_body(kind, &mut d) {
        Ok(x) => x,
        Err(e) => {
            return Err(e);
        },
    };
    if d.remaining() > 0 {
        return Err(CodecError::TrailingBytes);
    }
    Ok(x)
}

} // verus!
