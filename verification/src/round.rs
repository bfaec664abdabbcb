//! One height of voting over a candidate block.
//!
//! Every validator that holds a key and is not silent receives the candidate and
//! precommits it. Where their power is a quorum each of them decides the block with
//! the same certificate; otherwise nobody decides.

use std::collections::{BTreeMap, BTreeSet};

use vstd::prelude::*;

use crate::consensus;
use crate::consensus::{reaches_quorum, Commit, CommitView, Vote, VoteType};
use crate::crypto;
use crate::crypto::Keypair;
use crate::tx;
use crate::tx::Block;
use crate::validator;
use crate::validator::{Validator, ValidatorSet};
use crate::Digest;

verus! {

/// Those who vote: they hold a key and are not silent.
pub open spec fn awake(seeds: Map<u64, Seq<u8>>, silent: Set<u64>) -> Set<u64> {
    seeds.dom().difference(silent)
}

/// The precommit of validator `id` with the signing key of the given seed.
pub open spec fn precommit(id: u64, height: u64, block_hash: Digest, seed: Seq<u8>) -> Vote {
    Vote {
        validator: id,
        height,
        round: 0,
        block_hash,
        vote_type: VoteType::Precommit,
        signature: crypto::signature(
            seed,
            consensus::ballot_bytes(id, height, 0, block_hash, VoteType::Precommit),
        ),
    }
}

/// The precommits of all who vote, in order of their ids.
pub open spec fn ballots(
    vs: Seq<Validator>,
    seeds: Map<u64, Seq<u8>>,
    silent: Set<u64>,
    height: u64,
    block_hash: Digest,
) -> Seq<Vote>
    decreases vs.len(),
{
    if vs.len() == 0 {
        Seq::empty()
    } else {
        let before = ballots(vs.drop_last(), seeds, silent, height, block_hash);
        let id = vs.last().id;
        if awake(seeds, silent).contains(id) {
            before.push(precommit(id, height, block_hash, seeds[id]))
        } else {
            before
        }
    }
}

/// The certificate that the voters would make.
pub open spec fn certificate(
    vs: Seq<Validator>,
    seeds: Map<u64, Seq<u8>>,
    silent: Set<u64>,
    height: u64,
    block_hash: Digest,
) -> CommitView {
    CommitView {
        height,
        round: 0,
        block_hash,
        precommits: ballots(vs, seeds, silent, height, block_hash),
    }
}

/// Whether enough power votes to finalize a block.
pub open spec fn can_finalize(
    vs: Seq<Validator>,
    seeds: Map<u64, Seq<u8>>,
    silent: Set<u64>,
) -> bool {
    consensus::is_quorum(
        consensus::voting_power(vs, awake(seeds, silent)) as int,
        validator::power_sum(vs) as int,
    )
}

/// The ids of the validators that vote.
pub open spec fn deciders(vs: Seq<Validator>, seeds: Map<u64, Seq<u8>>, silent: Set<u64>) -> Set<
    u64,
> {
    Set::new(
        |id: u64|
            awake(seeds, silent).contains(id) && exists|i: int|
                0 <= i < vs.len() && (#[trigger] vs[i]).id == id,
    )
}

/// Whether each key that votes belongs to the validator it votes for.
pub open spec fn keys_match(
    vs: Seq<Validator>,
    seeds: Map<u64, Seq<u8>>,
    silent: Set<u64>,
) -> bool {
    forall|i: int|
        0 <= i < vs.len() && awake(seeds, silent).contains((#[trigger] vs[i]).id)
            ==> vs[i].pubkey@ == crypto::ed25519_public(seeds[vs[i].id])
}

/// Whether each vote verifies under the public half of the key that signed it.
pub open spec fn all_signed(votes: Seq<Vote>, seeds: Map<u64, Seq<u8>>) -> bool {
    forall|i: int|
        0 <= i < votes.len() ==> crypto::ed25519_verify(
            crypto::ed25519_public(seeds[(#[trigger] votes[i]).validator]),
            consensus::vote_signing_bytes(votes[i]),
            votes[i].signature@,
        )
}

/// Those who voted are the validators that vote, and their power is the power of
/// those awake.
proof fn lemma_ballots(
    vs: Seq<Validator>,
    seeds: Map<u64, Seq<u8>>,
    silent: Set<u64>,
    height: u64,
    block_hash: Digest,
)
    ensures
        consensus::voters(ballots(vs, seeds, silent, height, block_hash)) == deciders(
            vs,
            seeds,
            silent,
        ),
        forall|i: int|
            0 <= i < ballots(vs, seeds, silent, height, block_hash).len() ==> {
                let v = #[trigger] ballots(vs, seeds, silent, height, block_hash)[i];
                v == precommit(v.validator, height, block_hash, seeds[v.validator])
            },
    decreases vs.len(),
{
    let votes = ballots(vs, seeds, silent, height, block_hash);
    if vs.len() == 0 {
        assert(consensus::voters(votes) =~= deciders(vs, seeds, silent));
    } else {
        let vs0 = vs.drop_last();
        let before = ballots(vs0, seeds, silent, height, block_hash);
        let id = vs.last().id;
        lemma_ballots(vs0, seeds, silent, height, block_hash);
        if awake(seeds, silent).contains(id) {
            consensus::lemma_voters_push(before, precommit(id, height, block_hash, seeds[id]));
        }
        assert forall|k: u64| deciders(vs, seeds, silent).contains(k) <==> (deciders(
            vs0,
            seeds,
            silent,
        ).contains(k) || (k == id && awake(seeds, silent).contains(id))) by {
            if deciders(vs, seeds, silent).contains(k) {
                let i = choose|i: int| 0 <= i < vs.len() && (#[trigger] vs[i]).id == k;
                if i < vs0.len() {
                    assert(vs0[i].id == k);
                }
            }
            if deciders(vs0, seeds, silent).contains(k) {
                let i = choose|i: int| 0 <= i < vs0.len() && (#[trigger] vs0[i]).id == k;
                assert(vs[i].id == k);
            }
            if k == id {
                assert(vs[vs.len() - 1].id == k);
            }
        }
        assert(consensus::voters(votes) =~= deciders(vs, seeds, silent));
    }
}

/// The power of those who decide is the power of those awake.
proof fn lemma_decider_power(
    vs: Seq<Validator>,
    all: Seq<Validator>,
    seeds: Map<u64, Seq<u8>>,
    silent: Set<u64>,
)
    requires
        forall|i: int| 0 <= i < vs.len() ==> all.contains(#[trigger] vs[i]),
    ensures
        consensus::voting_power(vs, deciders(all, seeds, silent)) == consensus::voting_power(
            vs,
            awake(seeds, silent),
        ),
    decreases vs.len(),
{
    if vs.len() > 0 {
        let vs0 = vs.drop_last();
        assert forall|i: int| 0 <= i < vs0.len() implies all.contains(#[trigger] vs0[i]) by {
            assert(vs0[i] == vs[i]);
        }
        lemma_decider_power(vs0, all, seeds, silent);
        assert(all.contains(vs[vs.len() - 1]));
        let k = choose|k: int| 0 <= k < all.len() && all[k] == vs.last();
        assert(all[k].id == vs.last().id);
    }
}

/// Signed votes by matching keys are all good.
proof fn lemma_ballots_are_good(
    vs: Seq<Validator>,
    all: Seq<Validator>,
    seeds: Map<u64, Seq<u8>>,
    silent: Set<u64>,
    height: u64,
    block_hash: Digest,
)
    requires
        validator::by_id(all),
        0 <= vs.len() <= all.len(),
        vs == all.take(vs.len() as int),
        keys_match(all, seeds, silent),
        all_signed(ballots(vs, seeds, silent, height, block_hash), seeds),
    ensures
        consensus::votes_fault(
            all,
            certificate(all, seeds, silent, height, block_hash),
            ballots(vs, seeds, silent, height, block_hash),
        ) is None,
    decreases vs.len(),
{
    if vs.len() > 0 {
        let vs0 = vs.drop_last();
        let k = vs.len() - 1;
        let before = ballots(vs0, seeds, silent, height, block_hash);
        let votes = ballots(vs, seeds, silent, height, block_hash);
        assert(vs0 =~= all.take(vs0.len() as int));
        assert(all_signed(before, seeds)) by {
            assert forall|i: int| 0 <= i < before.len() implies crypto::ed25519_verify(
                crypto::ed25519_public(seeds[(#[trigger] before[i]).validator]),
                consensus::vote_signing_bytes(before[i]),
                before[i].signature@,
            ) by {
                assert(votes[i] == before[i]);
            }
        }
        lemma_ballots_are_good(vs0, all, seeds, silent, height, block_hash);
        let id = all[k].id;
        assert(vs.last() == all[k]);
        if awake(seeds, silent).contains(id) {
            let v = votes.last();
            assert(votes.drop_last() =~= before);
            validator::lemma_find_member(all, k);
            lemma_ballots(vs0, seeds, silent, height, block_hash);
            if consensus::voters(before).contains(id) {
                let i = choose|i: int| 0 <= i < vs0.len() && (#[trigger] vs0[i]).id == id;
                assert(all[i].id == id);
            }
            assert(votes[votes.len() - 1] == v);
        }
    }
}

proof fn lemma_power_splits(vs: Seq<Validator>, seeds: Map<u64, Seq<u8>>, silent: Set<u64>)
    ensures
        consensus::voting_power(vs, awake(seeds, silent)) + consensus::voting_power(vs, silent)
            <= validator::power_sum(vs),
        (forall|i: int| 0 <= i < vs.len() ==> seeds.contains_key((#[trigger] vs[i]).id))
            ==> consensus::voting_power(vs, awake(seeds, silent)) + consensus::voting_power(
            vs,
            silent,
        ) == validator::power_sum(vs),
    decreases vs.len(),
{
    if vs.len() > 0 {
        let before = vs.drop_last();
        lemma_power_splits(before, seeds, silent);
        validator::lemma_power_take(vs, vs.len() - 1);
        assert(vs.take(vs.len() - 1) =~= before);
        assert(vs.take(vs.len() as int) =~= vs);
        if forall|i: int| 0 <= i < vs.len() ==> seeds.contains_key((#[trigger] vs[i]).id) {
            assert(seeds.contains_key(vs[vs.len() - 1].id));
            assert forall|i: int| 0 <= i < before.len() implies seeds.contains_key(
                (#[trigger] before[i]).id,
            ) by {
                assert(before[i] == vs[i]);
            }
        }
    }
}

/// A third of the power silent is too much: no block can be finalized. With less
/// silent, and a key for every validator, one can.
pub proof fn law_a_third_silent_is_too_much(
    vs: Seq<Validator>,
    seeds: Map<u64, Seq<u8>>,
    silent: Set<u64>,
)
    ensures
        3 * consensus::voting_power(vs, silent) >= validator::power_sum(vs) ==> !can_finalize(
            vs,
            seeds,
            silent,
        ),
        (forall|i: int| 0 <= i < vs.len() ==> seeds.contains_key((#[trigger] vs[i]).id)) && 3
            * consensus::voting_power(vs, silent) < validator::power_sum(vs) ==> can_finalize(
            vs,
            seeds,
            silent,
        ),
{
    lemma_power_splits(vs, seeds, silent);
}

/// Where the keys match and enough power votes, the certificate verifies. What the
/// signatures are is known from signing them.
pub proof fn law_certificate_verifies(
    vs: Seq<Validator>,
    seeds: Map<u64, Seq<u8>>,
    silent: Set<u64>,
    height: u64,
    block_hash: Digest,
)
    requires
        validator::by_id(vs),
        keys_match(vs, seeds, silent),
        can_finalize(vs, seeds, silent),
        all_signed(ballots(vs, seeds, silent, height, block_hash), seeds),
    ensures
        consensus::certified(vs, certificate(vs, seeds, silent, height, block_hash)) is Ok,
{
    assert(vs =~= vs.take(vs.len() as int));
    lemma_ballots_are_good(vs, vs, seeds, silent, height, block_hash);
    lemma_ballots(vs, seeds, silent, height, block_hash);
    lemma_decider_power(vs, vs, seeds, silent);
}

/// The seeds of a table of signing keys.
pub open spec fn seeds_of(keys: Map<u64, Keypair>) -> Map<u64, Seq<u8>> {
    keys.map_values(|k: Keypair| k@)
}

/// One height of voting.
pub struct Sim {
    pub vset: ValidatorSet,
    pub keys: BTreeMap<u64, Keypair>,
    pub height: u64,
    pub candidate: Block,
    pub silent: BTreeSet<u64>,
}

impl Sim {
    /// A vote over `candidate` at `height`.
    pub fn new(
        vset: ValidatorSet,
        keys: BTreeMap<u64, Keypair>,
        height: u64,
        candidate: Block,
        silent: &BTreeSet<u64>,
    ) -> (r: Sim)
        ensures
            r.vset@ == vset@,
            r.keys == keys,
            r.height == height,
            r.candidate@ == candidate@,
            r.silent@ == silent@,
    {
        Sim { vset, keys, height, candidate, silent: silent.clone() }
    }

    fn cast(&self, block_hash: Digest) -> (r: Vec<Vote>)
        ensures
            r@ == ballots(
                self.vset@,
                seeds_of(self.keys@),
                self.silent@,
                self.height,
                block_hash,
            ),
            all_signed(r@, seeds_of(self.keys@)),
    {
        let ghost seeds = seeds_of(self.keys@);
        let members = self.vset.validators();
        let mut votes: Vec<Vote> = Vec::new();
        let mut i: usize = 0;
        assert(members@.take(0) =~= Seq::<Validator>::empty());
        while i < members.len()
            invariant
                i <= members.len(),
                members@ == self.vset@,
                seeds == seeds_of(self.keys@),
                votes@ == ballots(
                    members@.take(i as int),
                    seeds,
                    self.silent@,
                    self.height,
                    block_hash,
                ),
                all_signed(votes@, seeds),
            decreases members.len() - i,
        {
            let id: u64 = members[i].id;
            assert(members@.take(i + 1).drop_last() =~= members@.take(i as int));
            if !self.silent.contains(&id) {
                if let Some(kp) = self.keys.get(&id) {
                    let v = Vote::signed(
                        id,
                        self.height,
                        0,
                        block_hash,
                        VoteType::Precommit,
                        kp,
                    );
                    assert(v == precommit(id, self.height, block_hash, seeds[id]));
                    let ghost before = votes@;
                    votes.push(v);
                    assert forall|j: int| 0 <= j < votes@.len() implies crypto::ed25519_verify(
                        crypto::ed25519_public(seeds[(#[trigger] votes@[j]).validator]),
                        consensus::vote_signing_bytes(votes@[j]),
                        votes@[j].signature@,
                    ) by {
                        if j < before.len() {
                            assert(votes@[j] == before[j]);
                        }
                    }
                }
            }
            i += 1;
        }
        assert(members@.take(i as int) =~= members@);
        votes
    }

    fn awake_power(&self) -> (r: u64)
        ensures
            r == consensus::voting_power(
                self.vset@,
                awake(seeds_of(self.keys@), self.silent@),
            ),
            r <= validator::power_sum(self.vset@),
    {
        proof {
            use_type_invariant(&self.vset);
        }
        let ghost ids = awake(seeds_of(self.keys@), self.silent@);
        let members = self.vset.validators();
        let mut power: u64 = 0;
        let mut i: usize = 0;
        assert(members@.take(0) =~= Seq::<Validator>::empty());
        while i < members.len()
            invariant
                i <= members.len(),
                members@ == self.vset@,
                ids == awake(seeds_of(self.keys@), self.silent@),
                power == consensus::voting_power(members@.take(i as int), ids),
                validator::power_sum(members@) <= u64::MAX,
            decreases members.len() - i,
        {
            proof {
                assert(members@.take(i + 1).drop_last() =~= members@.take(i as int));
                consensus::lemma_voting_power_bound(members@.take(i + 1), ids);
                validator::lemma_power_take(members@, i as int);
            }
            let id: u64 = members[i].id;
            if self.keys.contains_key(&id) && !self.silent.contains(&id) {
                power = power + members[i].power;
            }
            i += 1;
        }
        proof {
            assert(members@.take(i as int) =~= members@);
            consensus::lemma_voting_power_bound(members@, ids);
        }
        power
    }

    /// Runs the vote. Where those awake are a quorum each of them decides the
    /// candidate with one and the same certificate; otherwise there is no decision.
    /// Every vote verifies under the key that signed it.
    pub fn run(&self) -> (r: BTreeMap<u64, Commit>)
        ensures
            r@.dom() == if can_finalize(self.vset@, seeds_of(self.keys@), self.silent@) {
                deciders(self.vset@, seeds_of(self.keys@), self.silent@)
            } else {
                Set::<u64>::empty()
            },
            forall|id: u64| #[trigger]
                r@.contains_key(id) ==> r@[id]@ == certificate(
                    self.vset@,
                    seeds_of(self.keys@),
                    self.silent@,
                    self.height,
                    tx::block_hash(self.candidate@),
                ),
            all_signed(
                ballots(
                    self.vset@,
                    seeds_of(self.keys@),
                    self.silent@,
                    self.height,
                    tx::block_hash(self.candidate@),
                ),
                seeds_of(self.keys@),
            ),
    {
        let ghost seeds = seeds_of(self.keys@);
        let mut decisions: BTreeMap<u64, Commit> = BTreeMap::new();
        let block_hash = self.candidate.hash();
        let votes = self.cast(block_hash);
        let power: u64 = self.awake_power();
        let total: u64 = self.vset.total_power();
        if !reaches_quorum(power, total) {
            assert(decisions@.dom() =~= Set::<u64>::empty());
            return decisions;
        }
        let commit = Commit { height: self.height, round: 0, block_hash, precommits: votes };
        let ghost cert = commit@;
        proof {
            lemma_ballots(self.vset@, seeds, self.silent@, self.height, block_hash);
        }
        let mut i: usize = 0;
        let n: usize = commit.precommits.len();
        assert(decisions@.dom() =~= consensus::voters(commit.precommits@.take(0)));
        while i < n
            invariant
                i <= n,
                n == commit.precommits.len(),
                commit@ == cert,
                decisions@.dom() == consensus::voters(commit.precommits@.take(i as int)),
                forall|id: u64| #[trigger] decisions@.contains_key(id) ==> decisions@[id]@ == cert,
            decreases n - i,
        {
            let ghost earlier = commit.precommits@.take(i as int);
            let v = commit.precommits[i];
            proof {
                assert(commit.precommits@.take(i + 1) =~= earlier.push(v));
                consensus::lemma_voters_push(earlier, v);
            }
            let copy = commit.clone();
            decisions.insert(v.validator, copy);
            assert(decisions@.dom() =~= consensus::voters(commit.precommits@.take(i + 1)));
            i += 1;
        }
        assert(commit.precommits@.take(i as int) =~= commit.precommits@);
        decisions
    }
}

} // verus!
