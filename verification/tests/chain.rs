//! The state machine, the hash-linked chain, and inclusion proofs.

use zhixing_node::codec::Enc;
use zhixing_node::graph::Assessment;
use zhixing_node::merkle;
use zhixing_node::store::BlockLog;
use zhixing_node::{
    sha256, Block, Chain, ChainError, Embedding, Genesis, Keypair, Review, SubmissionTx, Validator,
    ValidatorSet, DIM, MICRO,
};

/// A stand-in engine: what the graph already holds is worth nothing, anything else
/// 0.8.
fn engine(a: &Assessment) -> u32 {
    for n in a.graph {
        if n.domain == a.submission.domain && n.embedding == a.submission.embedding {
            return 0.0f32.to_bits();
        }
    }
    0.8f32.to_bits()
}

fn unit(x: f32, d: usize) -> Embedding {
    let mut e = [0.0f32.to_bits(); DIM];
    e[d] = x.to_bits();
    e
}

/// Deterministic test keypair for account `id`.
fn kp(id: u64) -> Keypair {
    let mut seed = [0u8; 32];
    seed[..8].copy_from_slice(&id.to_le_bytes());
    Keypair::from_seed(seed)
}

fn base_genesis() -> Genesis {
    Genesis {
        accounts: vec![
            (1, 30 * MICRO, kp(1).public()),
            (2, 30 * MICRO, kp(2).public()),
            (3, 30 * MICRO, kp(3).public()),
        ],
        reviewers: vec![
            (10, 1.0f32.to_bits()),
            (11, 1.0f32.to_bits()),
            (12, 1.0f32.to_bits()),
        ],
        seed_nodes: vec![(unit(1.0, 0), 0)], // domain 0 already occupied
        base_emission_micro: 8 * MICRO,
        slash_bps: 10_000,
        timestamp_days: 0.0f32.to_bits(),
        validators: vec![],
    }
}

fn scored(id: u64, score: f32) -> Review {
    Review { reviewer: id, score: score.to_bits() }
}

fn good_reviews() -> Vec<Review> {
    vec![scored(10, 0.9), scored(11, 0.85), scored(12, 0.9)]
}

fn novel_tx(author: u64, domain: u32, dim: usize, day: f32) -> SubmissionTx {
    SubmissionTx {
        author,
        embedding: unit(1.0, dim),
        domain,
        stake: 2 * MICRO,
        reviews: good_reviews(),
        repl_success: 3,
        repl_total: 3,
        timestamp_days: day.to_bits(),
        signature: [0u8; 64],
    }
    .signed(&kp(author))
}

fn block(chain: &Chain, height: u64, txs: Vec<SubmissionTx>) -> Block {
    Block {
        height,
        prev_hash: chain.head,
        timestamp_days: (height as f32).to_bits(),
        txs,
    }
}

#[test]
fn novel_submission_mints_and_conserves_supply() {
    let mut chain = Chain::new(base_genesis());
    let start_supply = chain.state.supply;
    let b = block(&chain, 1, vec![novel_tx(1, 1, 1, 1.0)]); // fresh domain 1
    let r = chain.commit(&engine, &b).unwrap();
    assert_eq!(r.accepted, 1);
    assert!(r.minted > 0);
    assert!(chain.state.supply > start_supply); // reward minted
    assert!(chain.state.supply_conserved());
}

#[test]
fn near_duplicate_is_slashed_to_treasury() {
    let mut chain = Chain::new(base_genesis());
    // domain 0 already has unit(1.0,0); the same again is worth nothing
    let dup = SubmissionTx {
        author: 1,
        embedding: unit(1.0, 0),
        domain: 0,
        stake: 2 * MICRO,
        reviews: good_reviews(),
        repl_success: 3,
        repl_total: 3,
        timestamp_days: 1.0f32.to_bits(),
        signature: [0u8; 64],
    }
    .signed(&kp(1));
    let b = block(&chain, 1, vec![dup]);
    let r = chain.commit(&engine, &b).unwrap();
    assert_eq!(r.rejected, 1);
    assert_eq!(r.minted, 0);
    assert_eq!(chain.state.treasury, 2 * MICRO); // whole stake slashed
    assert!(chain.state.supply_conserved());
}

#[test]
fn deterministic_replay_same_state_root() {
    let build = || {
        let mut chain = Chain::new(base_genesis());
        let b1 = block(&chain, 1, vec![novel_tx(1, 1, 1, 1.0)]);
        chain.commit(&engine, &b1).unwrap();
        let b2 = block(&chain, 2, vec![novel_tx(2, 2, 2, 2.0)]);
        chain.commit(&engine, &b2).unwrap();
        chain
    };
    let a = build();
    let b = build();
    assert_eq!(a.head, b.head);
    assert_eq!(a.state.state_root(), b.state.state_root());
}

#[test]
fn tampering_a_tx_changes_the_block_hash() {
    let chain = Chain::new(base_genesis());
    let b = block(&chain, 1, vec![novel_tx(1, 1, 1, 1.0)]);
    let h1 = b.hash();
    let mut b2 = b.clone();
    b2.txs[0].stake += 1;
    assert_ne!(h1, b2.hash());
}

#[test]
fn wrong_prev_hash_is_rejected() {
    let mut chain = Chain::new(base_genesis());
    let mut b = block(&chain, 1, vec![novel_tx(1, 1, 1, 1.0)]);
    b.prev_hash = [9u8; 32];
    assert!(matches!(chain.commit(&engine, &b), Err(ChainError::BadPrevHash)));
}

#[test]
fn invalid_tx_rolls_back_whole_block() {
    let mut chain = Chain::new(base_genesis());
    let root_before = chain.state.state_root();
    // second tx references unknown account -> whole block must roll back
    let bad = SubmissionTx {
        author: 999,
        ..novel_tx(1, 3, 3, 1.0)
    };
    let b = block(&chain, 1, vec![novel_tx(1, 1, 1, 1.0), bad]);
    assert!(chain.commit(&engine, &b).is_err());
    assert_eq!(chain.state.state_root(), root_before); // unchanged
    assert_eq!(chain.state.height, 0);
}

#[test]
fn cannot_stake_more_than_balance() {
    let mut chain = Chain::new(base_genesis());
    // re-sign after raising the stake, so it reaches the balance check
    let broke = SubmissionTx {
        stake: 1_000 * MICRO,
        ..novel_tx(1, 1, 1, 1.0)
    }
    .signed(&kp(1));
    let b = block(&chain, 1, vec![broke]);
    assert!(matches!(
        chain.commit(&engine, &b),
        Err(ChainError::InsufficientBalance { .. })
    ));
}

#[test]
fn forged_signature_is_rejected() {
    let mut chain = Chain::new(base_genesis());
    // account 1's submission signed by account 2's key
    let forged = SubmissionTx {
        author: 1,
        ..novel_tx(1, 1, 1, 1.0)
    }
    .signed(&kp(2));
    let b = block(&chain, 1, vec![forged]);
    assert!(matches!(chain.commit(&engine, &b), Err(ChainError::BadSignature(1))));
}

#[test]
fn tampering_a_signed_field_is_rejected() {
    let mut chain = Chain::new(base_genesis());
    let mut tx = novel_tx(1, 1, 1, 1.0); // validly signed
    tx.stake += 1; // mutate after signing -> signature no longer matches
    let b = block(&chain, 1, vec![tx]);
    assert!(matches!(chain.commit(&engine, &b), Err(ChainError::BadSignature(1))));
}

#[test]
fn merkle_root_authenticates_an_account_via_inclusion_proof() {
    let mut chain = Chain::new(base_genesis());
    let b = block(&chain, 1, vec![novel_tx(1, 1, 1, 1.0)]);
    chain.commit(&engine, &b).unwrap();

    let root = chain.state.merkle_root();
    // a light client is told account 1's contents and given a proof
    let acct = chain.state.accounts.get(&1).unwrap().clone();
    let proof = chain.state.account_proof(1).unwrap();
    let leaf = merkle::leaf_hash(&acct.merkle_leaf(1));
    assert!(merkle::verify(&root, &leaf, &proof));
}

#[test]
fn a_tampered_account_value_fails_the_proof() {
    let chain = Chain::new(base_genesis());
    let root = chain.state.merkle_root();
    let proof = chain.state.account_proof(2).unwrap();
    // claim a fatter balance than the state actually commits to
    let mut lying = chain.state.accounts.get(&2).unwrap().clone();
    lying.balance += 1_000 * MICRO;
    let leaf = merkle::leaf_hash(&lying.merkle_leaf(2));
    assert!(!merkle::verify(&root, &leaf, &proof));
}

#[test]
fn proof_against_a_stale_root_fails_after_state_changes() {
    let mut chain = Chain::new(base_genesis());
    let old_root = chain.state.merkle_root();
    let acct1 = chain.state.accounts.get(&1).unwrap().clone();
    let old_proof = chain.state.account_proof(1).unwrap();
    assert!(merkle::verify(
        &old_root,
        &merkle::leaf_hash(&acct1.merkle_leaf(1)),
        &old_proof
    ));

    // account 1 mints; its leaf (and the root) move
    let b = block(&chain, 1, vec![novel_tx(1, 1, 1, 1.0)]);
    chain.commit(&engine, &b).unwrap();
    let new_root = chain.state.merkle_root();
    assert_ne!(old_root, new_root);
    // the old (id,account,proof) no longer verifies against the new root
    assert!(!merkle::verify(
        &new_root,
        &merkle::leaf_hash(&acct1.merkle_leaf(1)),
        &old_proof
    ));
}

#[test]
fn proof_for_unknown_account_is_none() {
    let chain = Chain::new(base_genesis());
    assert!(chain.state.account_proof(999).is_none());
}

#[test]
fn persisted_log_replays_to_identical_state() {
    // build an in-memory chain and log each block
    let mut log = BlockLog::open(vec![]);
    let mut live = Chain::new(base_genesis());
    let b1 = block(&live, 1, vec![novel_tx(1, 1, 1, 1.0)]);
    live.commit(&engine, &b1).unwrap();
    log.append(&b1).unwrap();
    let b2 = Block {
        height: 2,
        prev_hash: live.head,
        timestamp_days: 2.0f32.to_bits(),
        txs: vec![novel_tx(2, 2, 2, 2.0)],
    };
    live.commit(&engine, &b2).unwrap();
    log.append(&b2).unwrap();

    // reopen the log, replay from genesis, and compare
    let blocks = BlockLog::open(log.bytes().to_vec()).read_all().unwrap();
    let replayed = Chain::replay(&engine, base_genesis(), &blocks).unwrap();

    assert_eq!(replayed.head, live.head);
    assert_eq!(replayed.state.state_root(), live.state.state_root());
    assert!(replayed.state.supply_conserved());
}

// --- exact values -------------------------------------------------------------

#[test]
fn an_accepted_submission_pays_the_scaled_emission() {
    let mut chain = Chain::new(base_genesis());
    let b = block(&chain, 1, vec![novel_tx(1, 1, 1, 1.0)]);
    let r = chain.commit(&engine, &b).unwrap();
    // 8_000_000 micro-units times the binary32 number nearest to 0.8
    let expected = ((8 * MICRO) as f64 * 0.8f32 as f64).round() as u64;
    assert_eq!(expected, 6_400_000);
    assert_eq!(r.minted, expected);
    assert_eq!(r.slashed, 0);
    assert_eq!(r.hash, b.hash());
    assert_eq!(r.txs[0].delta_k, 0.8f32.to_bits());
    let a = chain.state.accounts[&1];
    assert_eq!(a.balance, 30 * MICRO + expected);
    assert_eq!(a.staked_total, 2 * MICRO);
    assert_eq!(a.earned_total, expected);
    assert_eq!(a.slashed_total, 0);
    assert_eq!((a.submissions, a.accepted), (1, 1));
    assert_eq!(chain.state.supply, 90 * MICRO + expected);
    assert_eq!(chain.state.graph.nodes.len(), 2);
    // high scores on an accepted item gain 0.02
    assert_eq!(chain.state.reviewers[&10], (1.0f32 + 0.02).to_bits());
    assert_eq!(chain.block_hashes, vec![chain.genesis_hash, b.hash()]);
}

#[test]
fn a_rejected_submission_loses_the_slashed_part_of_its_stake() {
    let g = Genesis { slash_bps: 2_500, ..base_genesis() };
    let mut chain = Chain::new(g);
    let dup = SubmissionTx {
        stake: 2 * MICRO + 3,
        reviews: vec![scored(10, 0.9), scored(11, 0.5)],
        embedding: unit(1.0, 0),
        domain: 0,
        ..novel_tx(1, 0, 0, 1.0)
    }
    .signed(&kp(1));
    let b = block(&chain, 1, vec![dup]);
    let r = chain.commit(&engine, &b).unwrap();
    assert_eq!(r.slashed, 500_000);
    let a = chain.state.accounts[&1];
    assert_eq!(a.balance, 30 * MICRO - 500_000);
    assert_eq!(a.slashed_total, 500_000);
    assert_eq!((a.submissions, a.accepted), (1, 0));
    assert_eq!(chain.state.treasury, 500_000);
    assert_eq!(chain.state.supply, 90 * MICRO);
    assert_eq!(chain.state.graph.nodes.len(), 1);
    // a high score on a rejected item loses 0.03, a low one gains 0.01
    assert_eq!(chain.state.reviewers[&10], (1.0f32 - 0.03).to_bits());
    assert_eq!(chain.state.reviewers[&11], (1.0f32 + 0.01).to_bits());
    assert_eq!(chain.state.reviewers[&12], 1.0f32.to_bits());
    assert!(chain.state.supply_conserved());
}

#[test]
fn settling_takes_the_value_it_is_given() {
    let (mut state, _) = zhixing_node::ChainState::genesis(base_genesis());
    let t = novel_tx(1, 1, 1, 1.0);
    let r = state.settle_tx(&t, 0.25f32.to_bits()).unwrap();
    assert!(r.accepted);
    assert_eq!(r.minted, 2 * MICRO);
    let r = state.settle_tx(&t, (-0.25f32).to_bits()).unwrap();
    assert!(!r.accepted);
    assert_eq!(r.slashed, 2 * MICRO);
    let r = state.settle_tx(&t, f32::NAN.to_bits()).unwrap();
    assert!(!r.accepted);
    assert!(state.supply_conserved());
}

#[test]
fn an_overflowing_reward_is_refused() {
    let g = Genesis { base_emission_micro: u64::MAX, ..base_genesis() };
    let mut chain = Chain::new(g);
    let root = chain.state.state_root();
    // four fifths of the range fit once, not twice
    let b = block(&chain, 1, vec![novel_tx(1, 1, 1, 1.0), novel_tx(2, 2, 2, 1.0)]);
    assert!(matches!(chain.commit(&engine, &b), Err(ChainError::Overflow)));
    assert_eq!(chain.state.state_root(), root);
}

// --- refusals -----------------------------------------------------------------

#[test]
fn wrong_height_is_rejected() {
    let mut chain = Chain::new(base_genesis());
    let b = block(&chain, 3, vec![]);
    assert_eq!(
        chain.commit(&engine, &b).unwrap_err(),
        ChainError::BadHeight { expected: 1, got: 3 }
    );
}

#[test]
fn unknown_account_is_rejected() {
    let chain = Chain::new(base_genesis());
    let t = novel_tx(77, 1, 1, 1.0);
    assert_eq!(chain.state.validate_tx(&t), Err(ChainError::UnknownAccount(77)));
}

#[test]
fn unknown_reviewer_is_rejected() {
    let chain = Chain::new(base_genesis());
    let t = SubmissionTx { reviews: vec![scored(10, 0.5), scored(99, 0.5)], ..novel_tx(1, 1, 1, 1.0) };
    assert_eq!(chain.state.validate_tx(&t), Err(ChainError::UnknownReviewer(99)));
}

#[test]
fn empty_scores_are_rejected() {
    let chain = Chain::new(base_genesis());
    let t = SubmissionTx { reviews: vec![], ..novel_tx(1, 1, 1, 1.0) };
    assert_eq!(chain.state.validate_tx(&t), Err(ChainError::EmptyReviews(1)));
}

#[test]
fn scores_outside_the_unit_interval_are_rejected() {
    let chain = Chain::new(base_genesis());
    for bad in [1.5f32, -0.1, f32::NAN, f32::INFINITY] {
        let t = SubmissionTx { reviews: vec![scored(10, bad)], ..novel_tx(1, 1, 1, 1.0) };
        assert_eq!(
            chain.state.validate_tx(&t),
            Err(ChainError::BadScore { reviewer: 10, score: bad.to_bits() })
        );
    }
    for good in [0.0f32, -0.0, 1.0, 0.5] {
        let t = SubmissionTx { reviews: vec![scored(10, good)], ..novel_tx(1, 1, 1, 1.0) }
            .signed(&kp(1));
        assert_eq!(chain.state.validate_tx(&t), Ok(()));
    }
}

// --- laws on concrete values --------------------------------------------------

#[test]
fn genesis_commits_to_its_time() {
    let (state, gh) = zhixing_node::ChainState::genesis(base_genesis());
    let empty = Block {
        height: 0,
        prev_hash: [0u8; 32],
        timestamp_days: 0.0f32.to_bits(),
        txs: vec![],
    };
    assert_eq!(gh, empty.hash());
    assert_eq!(state.supply, 90 * MICRO);
    assert!(state.supply_conserved());
}

#[test]
fn a_repeated_account_id_replaces_its_endowment() {
    let g = Genesis {
        accounts: vec![(1, 5, kp(1).public()), (1, 7, kp(1).public())],
        ..base_genesis()
    };
    let (state, _) = zhixing_node::ChainState::genesis(g);
    assert_eq!(state.supply, 7);
    assert_eq!(state.accounts[&1].balance, 7);
    assert!(state.supply_conserved());
}

#[test]
fn a_replaced_endowment_does_not_count_towards_the_limit() {
    let accounts = |last: (u64, u64)| Genesis {
        accounts: vec![
            (1, u64::MAX, kp(1).public()),
            (2, 1, kp(2).public()),
            (last.0, last.1, kp(3).public()),
        ],
        ..base_genesis()
    };
    let (state, _) = zhixing_node::ChainState::genesis(accounts((1, 9)));
    assert_eq!(state.supply, 10);
    assert!(state.supply_conserved());
    // what no word can hold is cut at the largest
    let (state, _) = zhixing_node::ChainState::genesis(accounts((3, 9)));
    assert_eq!(state.supply, u64::MAX);
    assert!(!state.supply_conserved());
}

#[test]
fn a_tampered_history_does_not_replay() {
    let mut live = Chain::new(base_genesis());
    let b1 = block(&live, 1, vec![novel_tx(1, 1, 1, 1.0)]);
    live.commit(&engine, &b1).unwrap();
    let b2 = block(&live, 2, vec![novel_tx(2, 2, 2, 2.0)]);
    live.commit(&engine, &b2).unwrap();
    let mut forged = b1.clone();
    forged.timestamp_days = 9.0f32.to_bits();
    assert!(matches!(
        Chain::replay(&engine, base_genesis(), &[forged, b2.clone()]),
        Err(ChainError::BadPrevHash)
    ));
    assert!(matches!(
        Chain::replay(&engine, base_genesis(), &[b2]),
        Err(ChainError::BadPrevHash)
    ));
}

#[test]
fn the_graph_and_the_reputations_open_the_same_root() {
    let mut chain = Chain::new(base_genesis());
    let b = block(&chain, 1, vec![novel_tx(1, 1, 1, 1.0)]);
    chain.commit(&engine, &b).unwrap();
    let st = &chain.state;
    let root = st.merkle_root();
    let path = st.reviewer_proof(12).unwrap();
    let entry = zhixing_node::Reviewer { id: 12, reputation: st.reviewers[&12] };
    assert!(merkle::verify(&root, &merkle::leaf_hash(&entry.merkle_leaf()), &path));
    let path = st.graph_node_proof(1).unwrap();
    let leaf = merkle::leaf_hash(&st.graph.nodes[1].merkle_leaf());
    assert!(merkle::verify(&root, &leaf, &path));
    assert!(st.reviewer_proof(1).is_none());
    assert!(st.graph_node_proof(2).is_none());
}

#[test]
fn every_part_of_the_state_moves_the_roots() {
    let mut chain = Chain::new(base_genesis());
    let b = block(&chain, 1, vec![novel_tx(1, 1, 1, 1.0)]);
    chain.commit(&engine, &b).unwrap();
    let st = &chain.state;
    let (digest, root) = (st.state_root(), st.merkle_root());

    // the totals, the rules, the time and the validators are in the digest alone
    for part in 0..7 {
        let mut other = st.clone();
        match part {
            0 => other.height += 1,
            1 => other.supply += 1,
            2 => other.treasury += 1,
            3 => other.base_emission_micro += 1,
            4 => other.slash_bps -= 1,
            5 => other.now_days ^= 1,
            _ => {
                other.validators = ValidatorSet::new(vec![Validator {
                    id: 21,
                    pubkey: kp(21).public(),
                    power: 1,
                }]);
            }
        }
        assert_ne!(other.state_root(), digest);
        assert_eq!(other.merkle_root(), root);
    }
    // the entries are in both
    for part in 0..8 {
        let mut other = st.clone();
        let a = other.accounts.get_mut(&2).unwrap();
        match part {
            0 => a.pubkey[31] ^= 1,
            1 => a.balance += 1,
            2 => a.staked_total += 1,
            3 => a.earned_total += 1,
            4 => a.slashed_total += 1,
            5 => a.submissions += 1,
            6 => a.accepted += 1,
            _ => {
                *other.reviewers.get_mut(&11).unwrap() ^= 1;
            }
        }
        assert_ne!(other.state_root(), digest);
        assert_ne!(other.merkle_root(), root);
    }
    for part in 0..3 {
        let mut other = st.clone();
        let n = &mut other.graph.nodes[1];
        match part {
            0 => n.domain += 1,
            1 => n.node_id += 1,
            _ => n.embedding[0] ^= 1,
        }
        assert_ne!(other.state_root(), digest);
        assert_ne!(other.merkle_root(), root);
    }
}

#[test]
fn the_state_digest_has_its_bytes() {
    let g = Genesis {
        accounts: vec![],
        reviewers: vec![(10, 1.0f32.to_bits())],
        seed_nodes: vec![],
        base_emission_micro: 3,
        slash_bps: 4,
        timestamp_days: 2.0f32.to_bits(),
        validators: vec![(21, [7u8; 32], 5)],
    };
    let (state, _) = zhixing_node::ChainState::genesis(g);
    let mut e = Enc::new();
    for word in [0u64, 0, 0, 0, 1, 10] {
        e.u64(word); // height, supply, treasury, no account, one reputation, its id
    }
    e.binary32(1.0f32.to_bits());
    e.u64(0); // no graph node
    e.u64(3);
    e.u32(4);
    e.binary32(2.0f32.to_bits());
    e.u64(1); // one validator
    e.u64(21);
    e.raw(&[7u8; 32]);
    e.u64(5);
    assert_eq!(state.state_root(), sha256(&e.0));
}

#[test]
fn a_failing_block_leaves_what_was_applied_before() {
    let (mut state, gh) = zhixing_node::ChainState::genesis(base_genesis());
    let bad = SubmissionTx { author: 999, ..novel_tx(1, 3, 3, 1.0) };
    let b = Block {
        height: 1,
        prev_hash: gh,
        timestamp_days: 1.0f32.to_bits(),
        txs: vec![novel_tx(1, 1, 1, 1.0), bad, novel_tx(2, 2, 2, 1.0)],
    };
    assert_eq!(state.apply_block(&engine, &b).unwrap_err(), ChainError::UnknownAccount(999));
    assert_eq!(state.height, 0);
    assert_eq!(state.now_days, 1.0f32.to_bits());
    assert_eq!(state.accounts[&1].submissions, 1);
    assert_eq!(state.accounts[&2].submissions, 0);
    assert!(state.supply_conserved());
}

#[test]
fn a_signature_covers_every_field() {
    let chain = Chain::new(base_genesis());
    let good = novel_tx(1, 1, 1, 1.0);
    assert_eq!(chain.state.validate_tx(&good), Ok(()));
    for part in 0..8 {
        let mut t = good.clone();
        match part {
            0 => t.author = 2,
            1 => t.embedding[5] = 1.0f32.to_bits(),
            2 => t.domain += 1,
            3 => t.stake -= 1,
            4 => {
                t.reviews.pop();
            }
            5 => t.repl_success -= 1,
            6 => t.repl_total += 1,
            _ => t.timestamp_days = 2.0f32.to_bits(),
        }
        assert_eq!(chain.state.validate_tx(&t), Err(ChainError::BadSignature(t.author)));
    }
}
