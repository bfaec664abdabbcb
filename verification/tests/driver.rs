//! The chain driver, the pool, votes and certificates.

use std::collections::{BTreeMap, BTreeSet};

use zhixing_node::consensus::{reaches_quorum, ConsensusError};
use zhixing_node::driver::{ChainDriver, DriverError};
use zhixing_node::graph::Assessment;
use zhixing_node::round::Sim;
use zhixing_node::{
    BondKind, ChainError, Commit, Digest, Embedding, Genesis, Keypair, Review, SlashEvidence,
    StakeOp, SubmissionTx, Validator, ValidatorSet, Vote, VoteType, DIM, MICRO,
};

/// A stand-in engine: what the graph already holds is worth nothing, anything else
/// 0.8.
fn engine(a: &Assessment) -> u32 {
    for n in a.graph {
        if n.domain == a.submission.domain && n.embedding == a.submission.embedding {
            return 0.0f32.to_bits();
        }
    }
    0.8f32.to_bits()
}

fn seed(id: u64) -> [u8; 32] {
    let mut s = [0u8; 32];
    s[..8].copy_from_slice(&id.to_le_bytes());
    s
}

fn kp(id: u64) -> Keypair {
    Keypair::from_seed(seed(id))
}

fn unit(d: usize) -> Embedding {
    let mut e = [0.0f32.to_bits(); DIM];
    e[d % DIM] = 1.0f32.to_bits();
    e
}

fn genesis() -> Genesis {
    Genesis {
        accounts: vec![
            (1, 30 * MICRO, kp(1).public()),
            (2, 30 * MICRO, kp(2).public()),
            (3, 30 * MICRO, kp(3).public()),
        ],
        reviewers: vec![
            (10, 1.0f32.to_bits()),
            (11, 1.0f32.to_bits()),
            (12, 1.0f32.to_bits()),
        ],
        seed_nodes: vec![(unit(0), 0)],
        base_emission_micro: 8 * MICRO,
        slash_bps: 10_000,
        timestamp_days: 0.0f32.to_bits(),
        validators: vec![],
    }
}

fn validators() -> (ValidatorSet, BTreeMap<u64, [u8; 32]>) {
    let ids = [21u64, 22, 23, 24];
    let vset = ValidatorSet::new(
        ids.iter()
            .map(|&id| Validator { id, pubkey: kp(id).public(), power: 1 })
            .collect(),
    );
    let seeds = ids.iter().map(|&id| (id, seed(id))).collect();
    (vset, seeds)
}

fn tx(author: u64, dim: usize, domain: u32) -> SubmissionTx {
    SubmissionTx {
        author,
        embedding: unit(dim),
        domain,
        stake: 2 * MICRO,
        reviews: vec![
            Review { reviewer: 10, score: 0.9f32.to_bits() },
            Review { reviewer: 11, score: 0.85f32.to_bits() },
            Review { reviewer: 12, score: 0.9f32.to_bits() },
        ],
        repl_success: 3,
        repl_total: 3,
        timestamp_days: 1.0f32.to_bits(),
        signature: [0u8; 64],
    }
    .signed(&kp(author))
}

/// One driver, one block per height (max_txs = 1), fed three submissions.
fn seeded_driver() -> ChainDriver {
    let (vset, seeds) = validators();
    let mut d = ChainDriver::new(genesis(), vset, seeds, 1);
    d.submit(tx(1, 1, 1)).unwrap();
    d.submit(tx(2, 2, 2)).unwrap();
    d.submit(tx(3, 3, 3)).unwrap();
    d
}

#[test]
fn grows_a_multi_height_certified_chain() {
    let mut d = seeded_driver();
    let n = d.produce_until_drained(&engine, 1.0f32.to_bits(), 10).unwrap();
    assert_eq!(n, 3, "three single-tx blocks");
    assert_eq!(d.height(), 3);
    assert_eq!(d.certificates().len(), 3);
    assert!(d.chain.state.supply_conserved());
}

#[test]
fn every_committed_height_has_a_valid_certificate() {
    let (vset, _) = validators();
    let mut d = seeded_driver();
    d.produce_until_drained(&engine, 1.0f32.to_bits(), 10).unwrap();
    // the block hash chain the driver committed: [genesis, h1, h2, h3]
    let hashes = d.chain.block_hashes.clone();
    for (i, commit) in d.certificates().iter().enumerate() {
        assert_eq!(commit.height, (i + 1) as u64);
        assert!(commit.verify(&vset).is_ok());
        // the certificate certifies exactly the block that was committed
        assert_eq!(commit.block_hash, hashes[i + 1]);
    }
}

#[test]
fn certificate_binds_to_the_committed_block() {
    let (vset, _) = validators();
    let mut d = seeded_driver();
    let commit = d.produce(&engine, 1.0f32.to_bits(), &BTreeSet::new()).unwrap().unwrap();
    assert_eq!(commit.height, 1);
    assert_eq!(commit.block_hash, d.head());
    assert!(commit.verify(&vset).is_ok());
}

#[test]
fn progresses_with_one_crashed_validator() {
    // one of four validators offline (< 1/3 power) -> chain still grows
    let (vset, _) = validators();
    let mut d = seeded_driver();
    let mut silent = BTreeSet::new();
    silent.insert(24);
    let c = d.produce(&engine, 1.0f32.to_bits(), &silent).unwrap().expect("committed");
    assert_eq!(d.height(), 1);
    assert!(c.verify(&vset).is_ok());
}

#[test]
fn stalls_safely_when_quorum_is_impossible() {
    // two of four offline -> quorum 3 unreachable -> stall, chain untouched
    let mut d = seeded_driver();
    let mut silent = BTreeSet::new();
    silent.insert(23);
    silent.insert(24);
    let before = d.height();
    let r = d.produce(&engine, 1.0f32.to_bits(), &silent);
    assert!(matches!(r, Err(DriverError::ConsensusStalled { height: 1 })));
    assert_eq!(d.height(), before, "no block committed on a stall");
}

#[test]
fn two_drivers_grow_identical_chains() {
    let mut a = seeded_driver();
    let mut b = seeded_driver();
    a.produce_until_drained(&engine, 1.0f32.to_bits(), 10).unwrap();
    b.produce_until_drained(&engine, 1.0f32.to_bits(), 10).unwrap();
    assert_eq!(a.head(), b.head());
    assert_eq!(a.chain.state.state_root(), b.chain.state.state_root());
    // and the certificate chains match block-for-block
    let ha: Vec<Digest> = a.certificates().iter().map(|c| c.block_hash).collect();
    let hb: Vec<Digest> = b.certificates().iter().map(|c| c.block_hash).collect();
    assert_eq!(ha, hb);
}

// --- the driver's edges -------------------------------------------------------

#[test]
fn an_empty_pool_produces_nothing() {
    let (vset, seeds) = validators();
    let mut d = ChainDriver::new(genesis(), vset, seeds, 4);
    assert!(d.produce(&engine, 1.0f32.to_bits(), &BTreeSet::new()).unwrap().is_none());
    assert_eq!(d.produce_until_drained(&engine, 1.0f32.to_bits(), 5).unwrap(), 0);
    assert_eq!(d.height(), 0);
}

#[test]
fn draining_stops_at_the_limit() {
    let mut d = seeded_driver();
    assert_eq!(d.produce_until_drained(&engine, 1.0f32.to_bits(), 2).unwrap(), 2);
    assert_eq!(d.height(), 2);
    assert_eq!(d.mempool.len(), 1);
}

#[test]
fn a_certificate_that_the_set_does_not_back_is_a_fault() {
    // the driver votes with other keys than the validators registered
    let (vset, _) = validators();
    let seeds: BTreeMap<u64, [u8; 32]> =
        [21u64, 22, 23, 24].iter().map(|&id| (id, seed(id + 100))).collect();
    let mut d = ChainDriver::new(genesis(), vset, seeds, 1);
    d.submit(tx(1, 1, 1)).unwrap();
    let r = d.produce(&engine, 1.0f32.to_bits(), &BTreeSet::new());
    assert!(r.is_err());
    assert_eq!(d.height(), 0);
}

// --- the pool -----------------------------------------------------------------

#[test]
fn the_pool_orders_by_hash_and_holds_once() {
    let (vset, seeds) = validators();
    let mut d = ChainDriver::new(genesis(), vset, seeds, 8);
    let txs = [tx(1, 1, 1), tx(2, 2, 2), tx(3, 3, 3)];
    for t in &txs {
        assert_eq!(d.submit(t.clone()).unwrap(), t.hash());
        assert!(d.mempool.contains(&t.hash()));
    }
    d.submit(txs[0].clone()).unwrap();
    assert_eq!(d.mempool.len(), 3);
    let b = d.mempool.build_block(&engine, &d.chain, 1.0f32.to_bits()).unwrap();
    let got: Vec<Digest> = b.txs.iter().map(|t| t.hash()).collect();
    let mut sorted = got.clone();
    sorted.sort();
    assert_eq!(got, sorted);
    assert_eq!(got.len(), 3);
    assert_eq!(b.height, 1);
    assert_eq!(b.prev_hash, d.head());
    d.mempool.remove_included(&b);
    assert_eq!(d.mempool.len(), 0);
}

#[test]
fn the_builder_skips_what_no_longer_applies() {
    let (vset, seeds) = validators();
    let mut d = ChainDriver::new(genesis(), vset, seeds, 8);
    // each stakes the whole balance and loses it, so only the first applies
    let broke = |dim: usize| {
        SubmissionTx { stake: 30 * MICRO, embedding: unit(0), domain: 0, repl_total: dim as u32, ..tx(1, 0, 0) }
            .signed(&kp(1))
    };
    d.submit(broke(1)).unwrap();
    d.submit(broke(2)).unwrap();
    let b = d.mempool.build_block(&engine, &d.chain, 1.0f32.to_bits()).unwrap();
    assert_eq!(b.txs.len(), 1);
}

#[test]
fn the_pool_refuses_what_does_not_validate() {
    let mut d = seeded_driver();
    let forged = SubmissionTx { stake: 1, ..tx(1, 5, 5) };
    assert!(matches!(d.submit(forged), Err(ChainError::BadSignature(1))));
    assert_eq!(d.mempool.len(), 3);
}

// --- votes and certificates ---------------------------------------------------

#[test]
fn two_thirds_are_not_a_quorum() {
    assert!(!reaches_quorum(2, 3));
    assert!(reaches_quorum(3, 3));
    assert!(!reaches_quorum(2, 4));
    assert!(reaches_quorum(3, 4));
    assert!(!reaches_quorum(0, 0));
    assert!(!reaches_quorum(u64::MAX / 3 * 2, u64::MAX));
    assert!(reaches_quorum(u64::MAX / 3 * 2 + 1, u64::MAX));
}

fn certificate(voters: &[u64], h: Digest) -> Commit {
    Commit {
        height: 5,
        round: 0,
        block_hash: h,
        precommits: voters
            .iter()
            .map(|&id| Vote::signed(id, 5, 0, h, VoteType::Precommit, &kp(id)))
            .collect(),
    }
}

#[test]
fn a_certificate_is_refused_for_its_first_fault() {
    let (vset, _) = validators();
    let h = [7u8; 32];
    assert_eq!(certificate(&[21, 22, 23], h).verify(&vset), Ok(3));
    assert_eq!(
        certificate(&[21, 22], h).verify(&vset),
        Err(ConsensusError::NoQuorum { signed: 2, total: 4 })
    );
    assert_eq!(
        certificate(&[21, 22, 22], h).verify(&vset),
        Err(ConsensusError::DuplicateVote(22))
    );
    assert_eq!(
        certificate(&[21, 99, 23], h).verify(&vset),
        Err(ConsensusError::UnknownValidator(99))
    );
    let mut c = certificate(&[21, 22, 23], h);
    c.precommits[1].signature[3] ^= 1;
    assert_eq!(c.verify(&vset), Err(ConsensusError::BadSignature(22)));
    let mut c = certificate(&[21, 22, 23], h);
    c.precommits[2].block_hash = [8u8; 32];
    assert_eq!(c.verify(&vset), Err(ConsensusError::WrongVote(23)));
    let mut c = certificate(&[21, 22, 23], h);
    c.precommits[0] = Vote::signed(21, 5, 0, h, VoteType::Prevote, &kp(21));
    assert_eq!(c.verify(&vset), Err(ConsensusError::WrongVote(21)));
}

#[test]
fn a_decided_round_hands_every_live_validator_a_certificate() {
    let (vset, seeds) = validators();
    let d = seeded_driver();
    let b = d.mempool.build_block(&engine, &d.chain, 1.0f32.to_bits()).unwrap();
    let keys = |s: &BTreeMap<u64, [u8; 32]>| -> BTreeMap<u64, Keypair> {
        s.iter().map(|(&id, &x)| (id, Keypair::from_seed(x))).collect()
    };
    let mut silent = BTreeSet::new();
    silent.insert(22);
    let decided = Sim::new(vset.clone(), keys(&seeds), 1, b.clone(), &silent).run();
    let ids: Vec<u64> = decided.keys().copied().collect();
    assert_eq!(ids, vec![21, 23, 24]);
    for c in decided.values() {
        assert_eq!(c.block_hash, b.hash());
        assert!(c.verify(&vset).is_ok());
    }
    silent.insert(23);
    assert!(Sim::new(vset, keys(&seeds), 1, b, &silent).run().is_empty());
}

#[test]
fn double_signing_is_evidence() {
    let vote = |h: u8, round: u32, t: VoteType| Vote::signed(21, 2, round, [h; 32], t, &kp(21));
    let pair = |a: Vote, b: Vote| SlashEvidence { vote_a: a, vote_b: b };
    let p = VoteType::Precommit;
    assert!(pair(vote(1, 0, p), vote(2, 0, p)).is_well_formed());
    assert!(!pair(vote(1, 0, p), vote(1, 0, p)).is_well_formed());
    assert!(!pair(vote(1, 0, p), vote(2, 1, p)).is_well_formed());
    assert!(!pair(vote(1, 0, p), vote(2, 0, VoteType::Prevote)).is_well_formed());
    let key = Validator { id: 21, pubkey: kp(21).public(), power: 1 };
    assert!(vote(1, 0, p).verify(&key));
    assert!(!vote(1, 0, p).verify(&Validator { pubkey: kp(22).public(), ..key }));
}

#[test]
fn a_bonding_request_is_signed_and_hashed() {
    let op = |amount: u64| {
        StakeOp { account: 1, kind: BondKind::Bond, amount, signature: [0u8; 64] }.signed(&kp(1))
    };
    assert_eq!(op(5).hash(), op(5).hash());
    assert_ne!(op(5).hash(), op(6).hash());
    assert_ne!(op(5).signature, [0u8; 64]);
    assert_ne!(op(5).signature, op(6).signature);
}

#[test]
fn the_order_of_arrival_does_not_matter() {
    let (vset, seeds) = validators();
    let mut a = ChainDriver::new(genesis(), vset.clone(), seeds.clone(), 8);
    let mut b = ChainDriver::new(genesis(), vset, seeds, 8);
    let txs = [tx(1, 1, 1), tx(2, 2, 2), tx(3, 3, 3)];
    for t in &txs {
        a.submit(t.clone()).unwrap();
    }
    for t in txs.iter().rev() {
        b.submit(t.clone()).unwrap();
    }
    let day = 1.0f32.to_bits();
    let x = a.mempool.build_block(&engine, &a.chain, day).unwrap();
    let y = b.mempool.build_block(&engine, &b.chain, day).unwrap();
    assert_eq!(x.hash(), y.hash());
}

#[test]
fn a_third_of_the_power_is_too_much_to_lose() {
    // powers 5, 3, 1: the last may be silent, the middle one may not
    let power = [(21u64, 5u64), (22, 3), (23, 1)];
    let vset = ValidatorSet::new(
        power
            .iter()
            .map(|&(id, power)| Validator { id, pubkey: kp(id).public(), power })
            .collect(),
    );
    let seeds: BTreeMap<u64, [u8; 32]> = power.iter().map(|&(id, _)| (id, seed(id))).collect();
    let day = 1.0f32.to_bits();
    let mut d = ChainDriver::new(genesis(), vset, seeds, 1);
    d.submit(tx(1, 1, 1)).unwrap();
    let silent: BTreeSet<u64> = [22].into_iter().collect();
    assert!(matches!(
        d.produce(&engine, day, &silent),
        Err(DriverError::ConsensusStalled { height: 1 })
    ));
    let silent: BTreeSet<u64> = [23].into_iter().collect();
    assert!(d.produce(&engine, day, &silent).unwrap().is_some());
    assert!(d.chain.state.supply_conserved());
}
