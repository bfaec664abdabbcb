//! What votes and certificates mean.
//!
//! The laws below say which certificates verify and with what power, which fault is
//! named where one does not, and who votes in a round.

use vstd::prelude::*;

use crate::consensus;
use crate::consensus::{CommitView, ConsensusError, SlashEvidence, Vote};
use crate::crypto;
use crate::round;
use crate::validator;
use crate::validator::Validator;
use crate::Digest;

verus! {

// --- power --------------------------------------------------------------------

/// All power is counted, and of a group exactly that of its members.
pub proof fn law_power_adds_up(vs: Seq<Validator>, v: Validator, ids: Set<u64>)
    ensures
        validator::power_sum(Seq::empty()) == 0,
        validator::power_sum(vs.push(v)) == validator::power_sum(vs) + v.power,
        consensus::voting_power(Seq::empty(), ids) == 0,
        ids.contains(v.id) ==> consensus::voting_power(vs.push(v), ids) == consensus::voting_power(
            vs,
            ids,
        ) + v.power,
        !ids.contains(v.id) ==> consensus::voting_power(vs.push(v), ids)
            == consensus::voting_power(vs, ids),
{
    let all = vs.push(v);
    validator::lemma_power_take(all, vs.len() as int);
    assert(all.take(vs.len() as int) =~= vs);
    assert(all.take((vs.len() + 1) as int) =~= all);
    assert(all.drop_last() =~= vs);
}

/// The power of a group and the power outside it are all the power.
pub proof fn law_power_is_split(vs: Seq<Validator>, ids: Set<u64>)
    ensures
        consensus::voting_power(vs, ids) + consensus::voting_power(vs, ids.complement())
            == validator::power_sum(vs),
    decreases vs.len(),
{
    if vs.len() > 0 {
        let before = vs.drop_last();
        law_power_is_split(before, ids);
        assert(vs =~= before.push(vs.last()));
        law_power_adds_up(before, vs.last(), ids);
        law_power_adds_up(before, vs.last(), ids.complement());
    }
}

/// A quorum leaves less than a third outside, and whatever leaves less than a third
/// outside is one.
pub proof fn law_a_quorum_leaves_less_than_a_third(part: int, total: int)
    ensures
        consensus::is_quorum(part, total) <==> 3 * (total - part) < total,
{
}

// --- certificates -------------------------------------------------------------

/// Whether a vote is a precommit for the certified block, signed by a member under that
/// member's key.
pub open spec fn backs(vs: Seq<Validator>, c: CommitView, v: Vote) -> bool {
    &&& v.height == c.height
    &&& v.round == c.round
    &&& v.block_hash == c.block_hash
    &&& v.vote_type is Precommit
    &&& exists|k: int|
        0 <= k < vs.len() && (#[trigger] vs[k]).id == v.validator && crypto::authentic(
            vs[k].pubkey,
            consensus::vote_signing_bytes(v),
            v.signature,
        )
}

/// Whether no one voted twice among the first `n` votes.
pub open spec fn vote_once(votes: Seq<Vote>, n: int) -> bool {
    forall|i: int, j: int|
        0 <= i < j < n ==> (#[trigger] votes[i]).validator != (#[trigger] votes[j]).validator
}

proof fn lemma_member(vs: Seq<Validator>, id: u64)
    requires
        validator::by_id(vs),
    ensures
        forall|k: int|
            0 <= k < vs.len() && (#[trigger] vs[k]).id == id ==> validator::find(vs, id)
                == Some(vs[k]),
        (forall|k: int| 0 <= k < vs.len() ==> (#[trigger] vs[k]).id != id) ==> validator::find(
            vs,
            id,
        ) is None,
{
    assert forall|k: int| 0 <= k < vs.len() && (#[trigger] vs[k]).id == id implies validator::find(
        vs,
        id,
    ) == Some(vs[k]) by {
        validator::lemma_find_member(vs, k);
    }
    validator::lemma_place(vs, id);
}

proof fn lemma_first_votes(vs: Seq<Validator>, c: CommitView, n: int)
    requires
        validator::by_id(vs),
        0 <= n <= c.precommits.len(),
        forall|i: int| 0 <= i < n ==> backs(vs, c, #[trigger] c.precommits[i]),
        vote_once(c.precommits, n),
    ensures
        consensus::votes_fault(vs, c, c.precommits.take(n)) is None,
    decreases n,
{
    let votes = c.precommits;
    if n > 0 {
        lemma_first_votes(vs, c, n - 1);
        let earlier = votes.take(n - 1);
        let v = votes[n - 1];
        assert(votes.take(n).drop_last() =~= earlier);
        assert(votes.take(n).last() == v);
        assert(backs(vs, c, v));
        lemma_member(vs, v.validator);
        if consensus::voters(earlier).contains(v.validator) {
            let i = choose|i: int|
                0 <= i < earlier.len() && (#[trigger] earlier[i]).validator == v.validator;
            assert(votes[i].validator == v.validator);
        }
    }
}

/// A certificate whose votes all back the block, no two by one member, verifies exactly
/// where their power is more than two thirds of all, and gives that power; else the
/// shortfall is named.
pub proof fn law_good_votes_certify(vs: Seq<Validator>, c: CommitView)
    requires
        validator::by_id(vs),
        validator::power_sum(vs) <= u64::MAX,
        forall|i: int| 0 <= i < c.precommits.len() ==> backs(vs, c, #[trigger] c.precommits[i]),
        vote_once(c.precommits, c.precommits.len() as int),
    ensures
        ({
            let signed = consensus::voting_power(vs, consensus::voters(c.precommits));
            let total = validator::power_sum(vs);
            &&& 3 * signed > 2 * total ==> consensus::certified(vs, c) == Ok::<u64, ConsensusError>(
                signed as u64,
            )
            &&& 3 * signed <= 2 * total ==> consensus::certified(vs, c) == Err::<
                u64,
                ConsensusError,
            >(ConsensusError::NoQuorum { signed: signed as u64, total: total as u64 })
            &&& signed <= total
        }),
{
    let votes = c.precommits;
    lemma_first_votes(vs, c, votes.len() as int);
    assert(votes.take(votes.len() as int) =~= votes);
    consensus::lemma_voting_power_bound(vs, consensus::voters(votes));
}

/// Those who voted are exactly those named in the votes.
pub proof fn law_voters_are_those_named(votes: Seq<Vote>, id: u64)
    ensures
        consensus::voters(votes).contains(id) <==> exists|i: int|
            0 <= i < votes.len() && (#[trigger] votes[i]).validator == id,
{
}

/// The first vote that does not back the block, or repeats a voter, decides why a
/// certificate is refused.
pub proof fn law_the_first_bad_vote_is_named(vs: Seq<Validator>, c: CommitView, n: int)
    requires
        validator::by_id(vs),
        0 <= n < c.precommits.len(),
        forall|i: int| 0 <= i < n ==> backs(vs, c, #[trigger] c.precommits[i]),
        vote_once(c.precommits, n),
        !backs(vs, c, c.precommits[n]) || !vote_once(c.precommits, n + 1),
    ensures
        ({
            let v = c.precommits[n];
            let member = exists|k: int| 0 <= k < vs.len() && (#[trigger] vs[k]).id == v.validator;
            let fits = v.height == c.height && v.round == c.round && v.block_hash == c.block_hash
                && v.vote_type is Precommit;
            let again = exists|i: int|
                0 <= i < n && (#[trigger] c.precommits[i]).validator == v.validator;
            consensus::certified(vs, c) == Err::<u64, ConsensusError>(
                if !fits {
                    ConsensusError::WrongVote(v.validator)
                } else if !member {
                    ConsensusError::UnknownValidator(v.validator)
                } else if again {
                    ConsensusError::DuplicateVote(v.validator)
                } else {
                    ConsensusError::BadSignature(v.validator)
                },
            )
        }),
{
    let votes = c.precommits;
    let v = votes[n];
    let earlier = votes.take(n);
    lemma_first_votes(vs, c, n);
    lemma_member(vs, v.validator);
    assert(votes.take(n + 1).drop_last() =~= earlier);
    assert(votes.take(n + 1).last() == v);
    let again = exists|i: int| 0 <= i < n && (#[trigger] votes[i]).validator == v.validator;
    if again {
        let i = choose|i: int| 0 <= i < n && (#[trigger] votes[i]).validator == v.validator;
        assert(earlier[i].validator == v.validator);
    }
    if consensus::voters(earlier).contains(v.validator) {
        let i = choose|i: int|
            0 <= i < earlier.len() && (#[trigger] earlier[i]).validator == v.validator;
        assert(votes[i].validator == v.validator);
    }
    if exists|k: int| 0 <= k < vs.len() && (#[trigger] vs[k]).id == v.validator {
        let k = choose|k: int| 0 <= k < vs.len() && (#[trigger] vs[k]).id == v.validator;
        assert(validator::find(vs, v.validator) == Some(vs[k]));
        if !backs(vs, c, v) {
            assert(vs[k].id == v.validator);
        }
    }
    assert(consensus::vote_fault(vs, c, earlier, v) is Some) by {
        if backs(vs, c, v) && !again {
            assert(vote_once(votes, n + 1)) by {
                assert forall|i: int, j: int| 0 <= i < j < n + 1 implies (
                #[trigger] votes[i]).validator != (#[trigger] votes[j]).validator by {
                    if j == n {
                        assert(votes[i].validator != v.validator);
                    }
                }
            }
        }
    }
    consensus::lemma_votes_fault_prefix(vs, c, votes, n + 1);
}

/// Two votes are evidence exactly where one validator cast them in one step of one
/// round of one height, for two blocks.
pub proof fn law_evidence_is_of_two_blocks(v: Vote, w: Vote)
    ensures
        consensus::conflicting(SlashEvidence { vote_a: v, vote_b: v }) == false,
        consensus::conflicting(SlashEvidence { vote_a: v, vote_b: w }) == consensus::conflicting(
            SlashEvidence { vote_a: w, vote_b: v },
        ),
        consensus::conflicting(SlashEvidence { vote_a: v, vote_b: w }) <==> v.block_hash
            != w.block_hash && w == (Vote {
            block_hash: w.block_hash,
            signature: w.signature,
            ..v
        }),
{
}

// --- rounds -------------------------------------------------------------------

/// Each validator that holds a key and is not silent precommits the block, once, at
/// round zero, and nobody else does; the votes stand in order of id.
pub proof fn law_everyone_awake_votes_once(
    vs: Seq<Validator>,
    seeds: Map<u64, Seq<u8>>,
    silent: Set<u64>,
    height: u64,
    block_hash: Digest,
)
    requires
        validator::by_id(vs),
    ensures
        ({
            let c = round::certificate(vs, seeds, silent, height, block_hash);
            let votes = c.precommits;
            &&& c.height == height
            &&& c.round == 0
            &&& c.block_hash == block_hash
            &&& forall|k: int|
                0 <= k < vs.len() && seeds.contains_key((#[trigger] vs[k]).id) && !silent.contains(
                    vs[k].id,
                ) ==> consensus::voters(votes).contains(vs[k].id)
            &&& forall|i: int|
                0 <= i < votes.len() ==> {
                    let v = #[trigger] votes[i];
                    &&& seeds.contains_key(v.validator)
                    &&& !silent.contains(v.validator)
                    &&& exists|k: int| 0 <= k < vs.len() && (#[trigger] vs[k]).id == v.validator
                    &&& v.height == height
                    &&& v.round == 0
                    &&& v.block_hash == block_hash
                    &&& v.vote_type is Precommit
                    &&& v.signature == crypto::signature(
                        seeds[v.validator],
                        consensus::vote_signing_bytes(v),
                    )
                }
            &&& forall|i: int, j: int|
                0 <= i < j < votes.len() ==> (#[trigger] votes[i]).validator < (
                #[trigger] votes[j]).validator
        }),
    decreases vs.len(),
{
    let votes = round::ballots(vs, seeds, silent, height, block_hash);
    if vs.len() > 0 {
        let vs0 = vs.drop_last();
        let before = round::ballots(vs0, seeds, silent, height, block_hash);
        let id = vs.last().id;
        assert(validator::by_id(vs0));
        law_everyone_awake_votes_once(vs0, seeds, silent, height, block_hash);
        let awake = seeds.contains_key(id) && !silent.contains(id);
        if awake {
            consensus::lemma_voters_push(
                before,
                round::precommit(id, height, block_hash, seeds[id]),
            );
        }
        assert forall|k: int|
            0 <= k < vs.len() && seeds.contains_key((#[trigger] vs[k]).id) && !silent.contains(
                vs[k].id,
            ) implies consensus::voters(votes).contains(vs[k].id) by {
            if k < vs0.len() {
                assert(vs0[k] == vs[k]);
                assert(consensus::voters(before).contains(vs0[k].id));
            }
        }
        assert forall|i: int| 0 <= i < votes.len() implies {
            let v = #[trigger] votes[i];
            &&& seeds.contains_key(v.validator)
            &&& !silent.contains(v.validator)
            &&& exists|k: int| 0 <= k < vs.len() && (#[trigger] vs[k]).id == v.validator
            &&& v.height == height
            &&& v.round == 0
            &&& v.block_hash == block_hash
            &&& v.vote_type is Precommit
            &&& v.signature == crypto::signature(
                seeds[v.validator],
                consensus::vote_signing_bytes(v),
            )
        } by {
            if i < before.len() {
                assert(votes[i] == before[i]);
                let k = choose|k: int|
                    0 <= k < vs0.len() && (#[trigger] vs0[k]).id == before[i].validator;
                assert(vs[k].id == votes[i].validator);
            } else {
                assert(vs[vs.len() - 1].id == votes[i].validator);
            }
        }
        assert forall|i: int, j: int| 0 <= i < j < votes.len() implies (
        #[trigger] votes[i]).validator < (#[trigger] votes[j]).validator by {
            assert(votes[i] == before[i]);
            if j < before.len() {
                assert(votes[j] == before[j]);
            } else {
                let k = choose|k: int|
                    0 <= k < vs0.len() && (#[trigger] vs0[k]).id == before[i].validator;
                assert(vs[k].id < vs[vs.len() - 1].id);
            }
        }
    }
}

/// A round can finalize exactly where the validators that hold a key and are not silent
/// have more than two thirds of the power.
pub proof fn law_a_round_needs_two_thirds(
    vs: Seq<Validator>,
    seeds: Map<u64, Seq<u8>>,
    silent: Set<u64>,
)
    ensures
        round::can_finalize(vs, seeds, silent) <==> 3 * consensus::voting_power(
            vs,
            seeds.dom().intersect(silent.complement()),
        ) > 2 * validator::power_sum(vs),
{
    assert(seeds.dom().intersect(silent.complement()) =~= round::awake(seeds, silent));
}

} // verus!
