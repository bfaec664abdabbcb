//! Votes, finality certificates, evidence of double signing, and bonding requests.

use vstd::prelude::*;

use crate::bytes;
use crate::bytes::{copy_vec, same_bytes};
use crate::codec::Enc;
use crate::crypto;
use crate::crypto::Keypair;
use crate::hash;
use crate::hash::sha256;
use crate::validator;
use crate::validator::{Validator, ValidatorSet};
use crate::{Digest, Sig};

verus! {

// --- votes --------------------------------------------------------------------

/// The two voting steps of a round.
#[derive(Clone, Copy, Debug, PartialEq, Eq, Structural)]
pub enum VoteType {
    Prevote,
    Precommit,
}

/// The byte that stands for a voting step.
pub open spec fn vote_type_byte(t: VoteType) -> u8 {
    match t {
        VoteType::Prevote => 0,
        VoteType::Precommit => 1,
    }
}

impl VoteType {
    /// The byte that stands for this step.
    pub fn byte(&self) -> (r: u8)
        ensures
            r == vote_type_byte(*self),
    {
        match self {
            VoteType::Prevote => 0,
            VoteType::Precommit => 1,
        }
    }
}

/// One validator's signed vote for a block.
#[derive(Clone, Copy, Debug, PartialEq, Eq)]
pub struct Vote {
    pub validator: u64,
    pub height: u64,
    pub round: u32,
    pub block_hash: Digest,
    pub vote_type: VoteType,
    pub signature: Sig,
}

/// The bytes that a voter signs.
pub open spec fn ballot_bytes(
    validator: u64,
    height: u64,
    round: u32,
    block_hash: Digest,
    vote_type: VoteType,
) -> Seq<u8> {
    bytes::be64(validator) + bytes::be64(height) + bytes::be32(round) + block_hash@ + seq![
        vote_type_byte(vote_type),
    ]
}

/// The bytes that the voter of `v` signs: everything but the signature.
pub open spec fn vote_signing_bytes(v: Vote) -> Seq<u8> {
    ballot_bytes(v.validator, v.height, v.round, v.block_hash, v.vote_type)
}

/// The canonical bytes of a vote.
pub open spec fn vote_bytes(v: Vote) -> Seq<u8> {
    vote_signing_bytes(v) + v.signature@
}

/// Appends the bytes that a voter signs.
pub(crate) fn write_vote_body(e: &mut Enc, v: &Vote)
    ensures
        final(e)@ == old(e)@ + vote_signing_bytes(*v),
{
    e.u64(v.validator);
    e.u64(v.height);
    e.u32(v.round);
    e.raw(v.block_hash.as_slice());
    e.0.push(v.vote_type.byte());
    assert(e@ =~= old(e)@ + vote_signing_bytes(*v));
}

/// Appends the canonical bytes of a vote.
pub(crate) fn write_vote(e: &mut Enc, v: &Vote)
    ensures
        final(e)@ == old(e)@ + vote_bytes(*v),
{
    write_vote_body(e, v);
    e.raw(v.signature.as_slice());
    assert(e@ =~= old(e)@ + vote_bytes(*v));
}

impl Vote {
    /// A vote signed with `kp`. It verifies under the public half of `kp`.
    pub fn signed(
        validator: u64,
        height: u64,
        round: u32,
        block_hash: Digest,
        vote_type: VoteType,
        kp: &Keypair,
    ) -> (r: Vote)
        ensures
            r.validator == validator,
            r.height == height,
            r.round == round,
            r.block_hash == block_hash,
            r.vote_type == vote_type,
            r.signature == crypto::signature(kp@, vote_signing_bytes(r)),
            crypto::ed25519_verify(
                crypto::ed25519_public(kp@),
                vote_signing_bytes(r),
                r.signature@,
            ),
    {
        let mut v = Vote {
            validator,
            height,
            round,
            block_hash,
            vote_type,
            signature: [0u8; 64],
        };
        let mut e = Enc::new();
        write_vote_body(&mut e, &v);
        assert(e@ =~= vote_signing_bytes(v));
        v.signature = kp.sign(e.0.as_slice());
        v
    }

    /// Whether the signature verifies under the given validator's key.
    pub fn verify(&self, by: &Validator) -> (r: bool)
        ensures
            r == crypto::authentic(by.pubkey, vote_signing_bytes(*self), self.signature),
    {
        let mut e = Enc::new();
        write_vote_body(&mut e, self);
        assert(e@ =~= vote_signing_bytes(*self));
        crypto::verify(&by.pubkey, e.0.as_slice(), &self.signature)
    }
}

// --- voting power -------------------------------------------------------------

/// The summed power of the validators whose ids are in `ids`.
pub open spec fn voting_power(vs: Seq<Validator>, ids: Set<u64>) -> nat
    decreases vs.len(),
{
    if vs.len() == 0 {
        0
    } else {
        voting_power(vs.drop_last(), ids) + if ids.contains(vs.last().id) {
            vs.last().power as nat
        } else {
            0
        }
    }
}

/// Whether `part` is more than two thirds of `total`.
pub open spec fn is_quorum(part: int, total: int) -> bool {
    3 * part > 2 * total
}

/// Whether `part` is more than two thirds of `total`.
pub fn reaches_quorum(part: u64, total: u64) -> (r: bool)
    requires
        part <= total,
    ensures
        r == is_quorum(part as int, total as int),
{
    let rest: u64 = total - part;
    rest < part && rest < part - rest
}

/// No set of ids has more power than all validators together.
pub proof fn lemma_voting_power_bound(vs: Seq<Validator>, ids: Set<u64>)
    ensures
        voting_power(vs, ids) <= validator::power_sum(vs),
    decreases vs.len(),
{
    if vs.len() > 0 {
        lemma_voting_power_bound(vs.drop_last(), ids);
        validator::lemma_power_take(vs, vs.len() - 1);
        assert(vs.take(vs.len() - 1) =~= vs.drop_last());
        assert(vs.take(vs.len() as int) =~= vs);
    }
}

/// One more id adds the power of its validator.
pub proof fn lemma_voting_power_insert(vs: Seq<Validator>, ids: Set<u64>, k: int)
    requires
        validator::by_id(vs),
        0 <= k < vs.len(),
        !ids.contains(vs[k].id),
    ensures
        voting_power(vs, ids.insert(vs[k].id)) == voting_power(vs, ids) + vs[k].power,
    decreases vs.len(),
{
    let before = vs.drop_last();
    let more = ids.insert(vs[k].id);
    if k == vs.len() - 1 {
        assert forall|i: int| 0 <= i < before.len() implies (#[trigger] before[i]).id != vs[k].id by {
            assert(before[i] == vs[i]);
        }
        lemma_voting_power_same(before, ids, more);
    } else {
        assert(vs[k].id < vs.last().id);
        assert(before[k] == vs[k]);
        lemma_voting_power_insert(before, ids, k);
    }
}

proof fn lemma_voting_power_same(vs: Seq<Validator>, a: Set<u64>, b: Set<u64>)
    requires
        forall|i: int|
            0 <= i < vs.len() ==> a.contains((#[trigger] vs[i]).id) == b.contains(vs[i].id),
    ensures
        voting_power(vs, a) == voting_power(vs, b),
    decreases vs.len(),
{
    if vs.len() > 0 {
        let before = vs.drop_last();
        assert forall|i: int| 0 <= i < before.len() implies a.contains((#[trigger] before[i]).id)
            == b.contains(before[i].id) by {
            assert(before[i] == vs[i]);
        }
        lemma_voting_power_same(before, a, b);
    }
}

/// Two quorums have more than a third of all power in common: blocks that conflict
/// cannot both be final unless that much power voted twice.
pub proof fn law_quorums_overlap(vs: Seq<Validator>, a: Set<u64>, b: Set<u64>)
    requires
        is_quorum(voting_power(vs, a) as int, validator::power_sum(vs) as int),
        is_quorum(voting_power(vs, b) as int, validator::power_sum(vs) as int),
    ensures
        3 * voting_power(vs, a.intersect(b)) > validator::power_sum(vs),
{
    lemma_voting_power_overlap(vs, a, b);
}

proof fn lemma_voting_power_overlap(vs: Seq<Validator>, a: Set<u64>, b: Set<u64>)
    ensures
        voting_power(vs, a) + voting_power(vs, b) <= validator::power_sum(vs) + voting_power(
            vs,
            a.intersect(b),
        ),
    decreases vs.len(),
{
    if vs.len() > 0 {
        lemma_voting_power_overlap(vs.drop_last(), a, b);
        validator::lemma_power_take(vs, vs.len() - 1);
        assert(vs.take(vs.len() - 1) =~= vs.drop_last());
        assert(vs.take(vs.len() as int) =~= vs);
    }
}

// --- certificates -------------------------------------------------------------

/// A finality certificate: the precommits that finalized one block.
#[derive(Debug)]
pub struct Commit {
    pub height: u64,
    pub round: u32,
    pub block_hash: Digest,
    pub precommits: Vec<Vote>,
}

#[verifier::ext_equal]
pub struct CommitView {
    pub height: u64,
    pub round: u32,
    pub block_hash: Digest,
    pub precommits: Seq<Vote>,
}

impl View for Commit {
    type V = CommitView;

    open spec fn view(&self) -> CommitView {
        CommitView {
            height: self.height,
            round: self.round,
            block_hash: self.block_hash,
            precommits: self.precommits@,
        }
    }
}

impl Clone for Commit {
    fn clone(&self) -> (r: Commit)
        ensures
            r@ == self@,
    {
        Commit {
            height: self.height,
            round: self.round,
            block_hash: self.block_hash,
            precommits: copy_vec(&self.precommits),
        }
    }
}

/// Why a certificate does not verify.
#[derive(Clone, Copy, Debug, PartialEq, Eq)]
pub enum ConsensusError {
    /// A vote is not a precommit for this block at this height and round.
    WrongVote(u64),
    /// A vote is by someone outside the validator set.
    UnknownValidator(u64),
    /// A validator voted more than once.
    DuplicateVote(u64),
    /// A vote is not signed by its validator's key.
    BadSignature(u64),
    /// The votes do not reach more than two thirds of the power.
    NoQuorum { signed: u64, total: u64 },
}

/// The ids of all voters.
pub open spec fn voters(votes: Seq<Vote>) -> Set<u64> {
    Set::new(|id: u64| exists|i: int| 0 <= i < votes.len() && (#[trigger] votes[i]).validator == id)
}

/// What is wrong with a vote of a certificate, given those before it.
pub open spec fn vote_fault(
    vs: Seq<Validator>,
    c: CommitView,
    earlier: Seq<Vote>,
    v: Vote,
) -> Option<ConsensusError> {
    if v.height != c.height || v.round != c.round || v.block_hash != c.block_hash || v.vote_type
        != VoteType::Precommit {
        Some(ConsensusError::WrongVote(v.validator))
    } else if validator::find(vs, v.validator) is None {
        Some(ConsensusError::UnknownValidator(v.validator))
    } else if voters(earlier).contains(v.validator) {
        Some(ConsensusError::DuplicateVote(v.validator))
    } else if !crypto::authentic(
        validator::find(vs, v.validator)->0.pubkey,
        vote_signing_bytes(v),
        v.signature,
    ) {
        Some(ConsensusError::BadSignature(v.validator))
    } else {
        None
    }
}

/// What is wrong with the first bad vote, if any is bad.
pub open spec fn votes_fault(vs: Seq<Validator>, c: CommitView, votes: Seq<Vote>) -> Option<
    ConsensusError,
>
    decreases votes.len(),
{
    if votes.len() == 0 {
        None
    } else if let Some(e) = votes_fault(vs, c, votes.drop_last()) {
        Some(e)
    } else {
        vote_fault(vs, c, votes.drop_last(), votes.last())
    }
}

/// The power behind a certificate, if it verifies: every vote is good, and together
/// they are a quorum.
pub open spec fn certified(vs: Seq<Validator>, c: CommitView) -> Result<u64, ConsensusError> {
    if let Some(e) = votes_fault(vs, c, c.precommits) {
        Err(e)
    } else {
        let signed = voting_power(vs, voters(c.precommits));
        let total = validator::power_sum(vs);
        if is_quorum(signed as int, total as int) {
            Ok(signed as u64)
        } else {
            Err(ConsensusError::NoQuorum { signed: signed as u64, total: total as u64 })
        }
    }
}

pub proof fn lemma_voters_push(votes: Seq<Vote>, v: Vote)
    ensures
        voters(votes.push(v)) == voters(votes).insert(v.validator),
{
    let all = votes.push(v);
    assert forall|id: u64| voters(all).contains(id) <==> voters(votes).insert(
        v.validator,
    ).contains(id) by {
        if voters(all).contains(id) {
            let i = choose|i: int| 0 <= i < all.len() && (#[trigger] all[i]).validator == id;
            if i < votes.len() {
                assert(votes[i].validator == id);
            }
        }
        if voters(votes).contains(id) {
            let i = choose|i: int| 0 <= i < votes.len() && (#[trigger] votes[i]).validator == id;
            assert(all[i].validator == id);
        }
        if id == v.validator {
            assert(all[votes.len() as int].validator == id);
        }
    }
    assert(voters(all) =~= voters(votes).insert(v.validator));
}

proof fn lemma_no_voters(vs: Seq<Validator>)
    ensures
        voting_power(vs, voters(Seq::empty())) == 0,
    decreases vs.len(),
{
    if vs.len() > 0 {
        lemma_no_voters(vs.drop_last());
    }
}

/// A fault among the first votes is the fault of all.
pub proof fn lemma_votes_fault_prefix(vs: Seq<Validator>, c: CommitView, votes: Seq<Vote>, i: int)
    requires
        0 <= i <= votes.len(),
        votes_fault(vs, c, votes.take(i)) is Some,
    ensures
        votes_fault(vs, c, votes) == votes_fault(vs, c, votes.take(i)),
    decreases votes.len() - i,
{
    if i == votes.len() {
        assert(votes.take(i) =~= votes);
    } else {
        assert(votes.take(i + 1).drop_last() =~= votes.take(i));
        lemma_votes_fault_prefix(vs, c, votes, i + 1);
    }
}

impl Commit {
    /// Checks the certificate against a validator set, and returns the power that
    /// signed it.
    pub fn verify(&self, set: &ValidatorSet) -> (r: Result<u64, ConsensusError>)
        ensures
            r == certified(set@, self@),
    {
        let total: u64 = set.total_power();
        proof {
            use_type_invariant(set);
        }
        let ghost votes = self.precommits@;
        let mut signed: u64 = 0;
        let mut i: usize = 0;
        proof {
            assert(votes.take(0) =~= Seq::<Vote>::empty());
            lemma_no_voters(set@);
        }
        while i < self.precommits.len()
            invariant
                i <= self.precommits.len(),
                votes == self.precommits@,
                validator::by_id(set@),
                validator::power_sum(set@) <= u64::MAX,
                votes_fault(set@, self@, votes.take(i as int)) is None,
                signed == voting_power(set@, voters(votes.take(i as int))),
            decreases self.precommits.len() - i,
        {
            let v = self.precommits[i];
            let ghost earlier = votes.take(i as int);
            proof {
                assert(votes.take(i + 1).drop_last() =~= earlier);
                assert(votes.take(i + 1) =~= earlier.push(v));
                if vote_fault(set@, self@, earlier, v) is Some {
                    lemma_votes_fault_prefix(set@, self@, votes, i + 1);
                }
            }
            if v.height != self.height || v.round != self.round || !same_bytes(
                &v.block_hash,
                &self.block_hash,
            ) || v.vote_type != VoteType::Precommit {
                return Err(ConsensusError::WrongVote(v.validator));
            }
            let member: Validator = match set.get(v.validator) {
                Some(m) => *m,
                None => {
                    return Err(ConsensusError::UnknownValidator(v.validator));
                },
            };
            if has_voted(&self.precommits, i, v.validator) {
                return Err(ConsensusError::DuplicateVote(v.validator));
            }
            if !v.verify(&member) {
                return Err(ConsensusError::BadSignature(v.validator));
            }
            proof {
                validator::lemma_place(set@, v.validator);
                lemma_voters_push(earlier, v);
                lemma_voting_power_insert(
                    set@,
                    voters(earlier),
                    validator::place(set@, v.validator),
                );
                lemma_voting_power_bound(set@, voters(votes.take(i + 1)));
            }
            signed = signed + member.power;
            i += 1;
        }
        proof {
            assert(votes.take(i as int) =~= votes);
            lemma_voting_power_bound(set@, voters(votes));
        }
        if reaches_quorum(signed, total) {
            Ok(signed)
        } else {
            Err(ConsensusError::NoQuorum { signed, total })
        }
    }
}

/// Whether one of the first `n` votes is by `id`.
fn has_voted(votes: &Vec<Vote>, n: usize, id: u64) -> (r: bool)
    requires
        n <= votes.len(),
    ensures
        r == voters(votes@.take(n as int)).contains(id),
{
    let mut i: usize = 0;
    while i < n
        invariant
            i <= n,
            n <= votes.len(),
            forall|j: int| 0 <= j < i ==> (#[trigger] votes@.take(n as int)[j]).validator != id,
        decreases n - i,
    {
        assert(votes@.take(n as int)[i as int] == votes@[i as int]);
        if votes[i].validator == id {
            return true;
        }
        i += 1;
    }
    false
}

/// A certificate that verifies holds only good votes by members, no two by one
/// member, for exactly the certified block.
pub proof fn law_certificate_votes_are_good(vs: Seq<Validator>, c: CommitView)
    requires
        certified(vs, c) is Ok,
    ensures
        forall|i: int|
            0 <= i < c.precommits.len() ==> {
                let v = #[trigger] c.precommits[i];
                &&& v.height == c.height
                &&& v.round == c.round
                &&& v.block_hash == c.block_hash
                &&& v.vote_type == VoteType::Precommit
                &&& validator::find(vs, v.validator) is Some
                &&& crypto::authentic(
                    validator::find(vs, v.validator)->0.pubkey,
                    vote_signing_bytes(v),
                    v.signature,
                )
            },
        forall|i: int, j: int|
            0 <= i < j < c.precommits.len() ==> (#[trigger] c.precommits[i]).validator != (
            #[trigger] c.precommits[j]).validator,
        is_quorum(
            voting_power(vs, voters(c.precommits)) as int,
            validator::power_sum(vs) as int,
        ),
{
    assert forall|i: int| 0 <= i < c.precommits.len() implies vote_fault(
        vs,
        c,
        c.precommits.take(i),
        #[trigger] c.precommits[i],
    ) is None by {
        lemma_no_fault(vs, c, c.precommits, i);
    }
    assert forall|i: int, j: int| 0 <= i < j < c.precommits.len() implies (
    #[trigger] c.precommits[i]).validator != (#[trigger] c.precommits[j]).validator by {
        let earlier = c.precommits.take(j);
        assert(vote_fault(vs, c, earlier, c.precommits[j]) is None);
        assert(earlier[i] == c.precommits[i]);
        assert(voters(earlier).contains(c.precommits[i].validator));
    }
}

proof fn lemma_no_fault(vs: Seq<Validator>, c: CommitView, votes: Seq<Vote>, i: int)
    requires
        votes_fault(vs, c, votes) is None,
        0 <= i < votes.len(),
    ensures
        vote_fault(vs, c, votes.take(i), votes[i]) is None,
    decreases votes.len(),
{
    if i == votes.len() - 1 {
        assert(votes.take(i) =~= votes.drop_last());
    } else {
        assert(votes.drop_last().take(i) =~= votes.take(i));
        lemma_no_fault(vs, c, votes.drop_last(), i);
    }
}

proof fn lemma_power_has_a_holder(vs: Seq<Validator>, ids: Set<u64>)
    requires
        voting_power(vs, ids) > 0,
    ensures
        exists|id: u64| ids.contains(id),
    decreases vs.len(),
{
    if !ids.contains(vs.last().id) {
        lemma_power_has_a_holder(vs.drop_last(), ids);
    }
}

/// Two certificates of one height and round for different blocks hold the evidence
/// that some validator signed both.
pub proof fn law_conflicting_certificates_show_double_signing(
    vs: Seq<Validator>,
    a: CommitView,
    b: CommitView,
)
    requires
        certified(vs, a) is Ok,
        certified(vs, b) is Ok,
        a.height == b.height,
        a.round == b.round,
        a.block_hash != b.block_hash,
    ensures
        exists|i: int, j: int|
            0 <= i < a.precommits.len() && 0 <= j < b.precommits.len() && conflicting(
                SlashEvidence { vote_a: #[trigger] a.precommits[i], vote_b: #[trigger] b.precommits[j] },
            ),
{
    law_certificate_votes_are_good(vs, a);
    law_certificate_votes_are_good(vs, b);
    let va = voters(a.precommits);
    let vb = voters(b.precommits);
    law_quorums_overlap(vs, va, vb);
    lemma_power_has_a_holder(vs, va.intersect(vb));
    let id = choose|id: u64| va.intersect(vb).contains(id);
    let i = choose|i: int|
        0 <= i < a.precommits.len() && (#[trigger] a.precommits[i]).validator == id;
    let j = choose|j: int|
        0 <= j < b.precommits.len() && (#[trigger] b.precommits[j]).validator == id;
    assert(conflicting(SlashEvidence { vote_a: a.precommits[i], vote_b: b.precommits[j] }));
}

// --- evidence and bonding -----------------------------------------------------

/// Two votes that one validator should not both have signed.
#[derive(Clone, Copy, Debug, PartialEq, Eq)]
pub struct SlashEvidence {
    pub vote_a: Vote,
    pub vote_b: Vote,
}

/// Whether two votes are by one validator, for one height, round and step, but for
/// different blocks.
pub open spec fn conflicting(e: SlashEvidence) -> bool {
    &&& e.vote_a.validator == e.vote_b.validator
    &&& e.vote_a.height == e.vote_b.height
    &&& e.vote_a.round == e.vote_b.round
    &&& e.vote_a.vote_type == e.vote_b.vote_type
    &&& e.vote_a.block_hash != e.vote_b.block_hash
}

/// The canonical bytes of a piece of evidence.
pub open spec fn evidence_bytes(e: SlashEvidence) -> Seq<u8> {
    vote_bytes(e.vote_a) + vote_bytes(e.vote_b)
}

/// The content hash of a piece of evidence.
pub open spec fn evidence_hash(e: SlashEvidence) -> Digest {
    hash::hash_of(evidence_bytes(e))
}

/// The canonical bytes of a piece of evidence.
pub fn encode_evidence(ev: &SlashEvidence) -> (r: Vec<u8>)
    ensures
        r@ == evidence_bytes(*ev),
{
    let mut e = Enc::new();
    write_vote(&mut e, &ev.vote_a);
    write_vote(&mut e, &ev.vote_b);
    assert(e@ =~= evidence_bytes(*ev));
    e.0
}

impl SlashEvidence {
    /// Whether the two votes conflict. Their signatures are not looked at.
    pub fn is_well_formed(&self) -> (r: bool)
        ensures
            r == conflicting(*self),
    {
        self.vote_a.validator == self.vote_b.validator && self.vote_a.height == self.vote_b.height
            && self.vote_a.round == self.vote_b.round && self.vote_a.vote_type
            == self.vote_b.vote_type && !same_bytes(
            &self.vote_a.block_hash,
            &self.vote_b.block_hash,
        )
    }

    /// The content hash.
    pub fn hash(&self) -> (r: Digest)
        ensures
            r == evidence_hash(*self),
    {
        let b = encode_evidence(self);
        sha256(b.as_slice())
    }
}

/// Whether power is to be bonded or released.
#[derive(Clone, Copy, Debug, PartialEq, Eq, Structural)]
pub enum BondKind {
    Bond,
    Unbond,
}

/// The byte that stands for a kind of request.
pub open spec fn bond_kind_byte(k: BondKind) -> u8 {
    match k {
        BondKind::Bond => 0,
        BondKind::Unbond => 1,
    }
}

/// A signed request to bond or release stake.
#[derive(Clone, Copy, Debug, PartialEq, Eq)]
pub struct StakeOp {
    pub account: u64,
    pub kind: BondKind,
    pub amount: u64,
    pub signature: Sig,
}

/// The bytes that the account signs: everything but the signature.
pub open spec fn stake_op_signing_bytes(op: StakeOp) -> Seq<u8> {
    bytes::be64(op.account) + seq![bond_kind_byte(op.kind)] + bytes::be64(op.amount)
}

/// The canonical bytes of a request.
pub open spec fn stake_op_bytes(op: StakeOp) -> Seq<u8> {
    stake_op_signing_bytes(op) + op.signature@
}

/// The content hash of a request.
pub open spec fn stake_op_hash(op: StakeOp) -> Digest {
    hash::hash_of(stake_op_bytes(op))
}

fn write_stake_op_body(e: &mut Enc, op: &StakeOp)
    ensures
        final(e)@ == old(e)@ + stake_op_signing_bytes(*op),
{
    e.u64(op.account);
    let kind: u8 = match op.kind {
        BondKind::Bond => 0,
        BondKind::Unbond => 1,
    };
    e.0.push(kind);
    e.u64(op.amount);
    assert(e@ =~= old(e)@ + stake_op_signing_bytes(*op));
}

/// The canonical bytes of a request.
pub fn encode_stakeop(op: &StakeOp) -> (r: Vec<u8>)
    ensures
        r@ == stake_op_bytes(*op),
{
    let mut e = Enc::new();
    write_stake_op_body(&mut e, op);
    e.raw(op.signature.as_slice());
    assert(e@ =~= stake_op_bytes(*op));
    e.0
}

impl StakeOp {
    /// Fills in the signature with `kp`'s over all other fields. It verifies under
    /// the public half of `kp`.
    pub fn signed(self, kp: &Keypair) -> (r: StakeOp)
        ensures
            r == (StakeOp {
                signature: crypto::signature(kp@, stake_op_signing_bytes(self)),
                ..self
            }),
            crypto::ed25519_verify(
                crypto::ed25519_public(kp@),
                stake_op_signing_bytes(r),
                r.signature@,
            ),
    {
        let mut op = self;
        let mut e = Enc::new();
        write_stake_op_body(&mut e, &op);
        assert(e@ =~= stake_op_signing_bytes(self));
        op.signature = kp.sign(e.0.as_slice());
        op
    }

    /// The content hash.
    pub fn hash(&self) -> (r: Digest)
        ensures
            r == stake_op_hash(*self),
    {
        let b = encode_stakeop(self);
        sha256(b.as_slice())
    }
}

} // verus!
