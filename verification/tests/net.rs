//! Gossip, sync and light peers.

use std::collections::{BTreeMap, BTreeSet};

use zhixing_node::codec::encode_block;
use zhixing_node::driver::ChainDriver;
use zhixing_node::gossip::{
    decode_gossip, encode_gossip, frame_msg, put_bytes, take_bytes, unframe_msg, GossipMsg,
    MAX_PROOF_BATCH,
};
use zhixing_node::graph::Assessment;
use zhixing_node::light::{
    BlockHeader, CertifiedHeader, LightError, ProofEntry, ProofKind, ValidatorTracker,
};
use zhixing_node::light_network::LightNetwork;
use zhixing_node::merkle;
use zhixing_node::network::Network;
use zhixing_node::node::GossipNode;
use zhixing_node::parse::{CodecError, Dec};
use zhixing_node::spv::LightGossipNode;
use zhixing_node::wire::{encode_certified_header, encode_commit};
use zhixing_node::{
    Account, Block, BondKind, Chain, Commit, Embedding, Genesis, Keypair, Review, Reviewer,
    SlashEvidence, StakeOp, SubmissionTx, Validator, ValidatorSet, Vote, VoteType, DIM, MICRO,
};

/// A stand-in engine: what the graph already holds is worth nothing, anything else
/// 0.8.
fn engine(a: &Assessment) -> u32 {
    for n in a.graph {
        if n.domain == a.submission.domain && n.embedding == a.submission.embedding {
            return 0.0f32.to_bits();
        }
    }
    0.8f32.to_bits()
}

fn seed(id: u64) -> [u8; 32] {
    let mut s = [0u8; 32];
    s[..8].copy_from_slice(&id.to_le_bytes());
    s
}

fn kp(id: u64) -> Keypair {
    Keypair::from_seed(seed(id))
}

fn unit(d: usize) -> Embedding {
    let mut e = [0.0f32.to_bits(); DIM];
    e[d % DIM] = 1.0f32.to_bits();
    e
}

fn genesis() -> Genesis {
    Genesis {
        accounts: vec![
            (1, 30 * MICRO, kp(1).public()),
            (2, 30 * MICRO, kp(2).public()),
            (3, 30 * MICRO, kp(3).public()),
        ],
        reviewers: vec![
            (10, 1.0f32.to_bits()),
            (11, 1.0f32.to_bits()),
            (12, 1.0f32.to_bits()),
        ],
        seed_nodes: vec![(unit(0), 0)],
        base_emission_micro: 8 * MICRO,
        slash_bps: 10_000,
        timestamp_days: 0.0f32.to_bits(),
        validators: [21u64, 22, 23, 24].iter().map(|&id| (id, kp(id).public(), 1)).collect(),
    }
}

fn tx(author: u64, dim: usize, domain: u32) -> SubmissionTx {
    SubmissionTx {
        author,
        embedding: unit(dim),
        domain,
        stake: 2 * MICRO,
        reviews: vec![
            Review { reviewer: 10, score: 0.9f32.to_bits() },
            Review { reviewer: 11, score: 0.85f32.to_bits() },
            Review { reviewer: 12, score: 0.9f32.to_bits() },
        ],
        repl_success: 3,
        repl_total: 3,
        timestamp_days: 1.0f32.to_bits(),
        signature: [0u8; 64],
    }
    .signed(&kp(author))
}

/// Produce a real certified chain (blocks + certs) to seed sync tests with.
fn certified_chain(n_tx: usize) -> (Vec<Block>, Vec<Commit>) {
    let seeds: BTreeMap<u64, [u8; 32]> =
        [21u64, 22, 23, 24].iter().map(|&id| (id, seed(id))).collect();
    let vset = Chain::new(genesis()).state.validators;
    let mut d = ChainDriver::new(genesis(), vset, seeds, 1);
    let txs = [tx(1, 1, 1), tx(2, 2, 2), tx(3, 3, 3), tx(1, 4, 4)];
    for t in txs.iter().take(n_tx) {
        d.submit(t.clone()).unwrap();
    }
    let mut blocks = Vec::new();
    for i in 0..16 {
        let day = (1.0 + i as f32).to_bits();
        let Some(b) = d.mempool.build_block(&engine, &d.chain, day) else {
            break;
        };
        d.produce(&engine, day, &BTreeSet::new()).unwrap().unwrap();
        assert_eq!(b.hash(), d.head());
        blocks.push(b);
    }
    (blocks, d.certificates().to_vec())
}

#[test]
fn wire_round_trips_every_message() {
    let (blocks, certs) = certified_chain(2);
    let batch: Vec<(Block, Commit)> = blocks.iter().cloned().zip(certs.iter().cloned()).collect();
    let headers: Vec<CertifiedHeader> = blocks
        .iter()
        .zip(certs.iter())
        .map(|(b, c)| CertifiedHeader::from_certified(b, c))
        .collect();
    // A trivial account + Merkle proof (the proof is shape, not semantics;
    // round-trip is the property under test).
    let fake_account = Account::default();
    let fake_proof = merkle::Proof { steps: vec![merkle::Step::Right([0xAA; 32])] };
    // A single mixed-kind batched proof request with all three kinds present
    // (account, standing, validator) and one None-slot in the response.
    let request = GossipMsg::GetProof {
        items: vec![
            (ProofKind::Account, 1),
            (ProofKind::Reviewer, 10),
            (ProofKind::Validator, 25),
        ],
    };
    let response = GossipMsg::Proof {
        items: vec![
            Some(ProofEntry::Account {
                id: 1,
                account: fake_account.clone(),
                path: fake_proof.clone(),
            }),
            None,
            Some(ProofEntry::Validator {
                id: 25,
                validator: Validator { id: 25, pubkey: [3u8; 32], power: 7 },
                path: fake_proof.clone(),
            }),
        ],
    };
    let msgs = vec![
        GossipMsg::Status { height: 7 },
        GossipMsg::GetBlocks { from: 3 },
        GossipMsg::Blocks(batch),
        GossipMsg::Tx(tx(1, 1, 1)),
        GossipMsg::Evidence(sample_evidence(1)),
        GossipMsg::StakeOp(sample_bond(1, 5 * MICRO)),
        GossipMsg::GetHeaders { from: 3 },
        GossipMsg::Headers(headers),
        request,
        response,
    ];
    for m in &msgs {
        let bytes = encode_gossip(m);
        match decode_gossip(&bytes) {
            Ok(back) => assert_eq!(encode_gossip(&back), bytes, "re-encoding is stable"),
            Err(e) => panic!("decode failed: {e:?} for {m:?}"),
        }
    }
}

#[test]
fn every_cut_message_is_refused() {
    let (blocks, certs) = certified_chain(2);
    let mut full = GossipNode::new(1, genesis(), 8, &[1]);
    full.load_certified(&engine, &blocks, &certs);
    let items = vec![(ProofKind::Account, 1), (ProofKind::Account, 999), (ProofKind::GraphNode, 0)];
    let reply = full.on_message(&engine, 9, GossipMsg::GetProof { items: items.clone() });
    let (_, proof) = reply.into_iter().next().unwrap();
    let msgs = vec![
        GossipMsg::Status { height: 7 },
        GossipMsg::Blocks(blocks.iter().cloned().zip(certs.iter().cloned()).collect()),
        GossipMsg::Tx(tx(1, 1, 1)),
        GossipMsg::Evidence(sample_evidence(1)),
        GossipMsg::StakeOp(sample_bond(1, 5 * MICRO)),
        GossipMsg::Headers(full.headers_from(1)),
        GossipMsg::GetProof { items },
        proof,
    ];
    for m in &msgs {
        let bytes = encode_gossip(m);
        for n in 0..bytes.len() {
            assert_eq!(decode_gossip(&bytes[..n]).unwrap_err(), CodecError::UnexpectedEof);
        }
    }
    let framed = frame_msg(&msgs[0]).unwrap();
    for n in 0..framed.len() {
        assert_eq!(unframe_msg(&framed[..n]).unwrap_err(), CodecError::UnexpectedEof);
    }
}

#[test]
fn a_length_and_its_bytes_are_read_back() {
    let mut buf = vec![];
    put_bytes(&mut buf, b"abc");
    put_bytes(&mut buf, b"");
    assert_eq!(buf, [0, 0, 0, 3, b'a', b'b', b'c', 0, 0, 0, 0]);
    buf.extend_from_slice(&[0, 0, 0, 2, 9]);
    let mut d = Dec::new(&buf);
    assert_eq!(take_bytes(&mut d), Ok(&b"abc"[..]));
    assert_eq!(take_bytes(&mut d), Ok(&b""[..]));
    // two bytes are announced and one is there: nothing is read
    assert_eq!(take_bytes(&mut d), Err(CodecError::UnexpectedEof));
    assert_eq!(d.remaining(), 5);
    let mut d = Dec::new(&buf[..3]);
    assert_eq!(take_bytes(&mut d), Err(CodecError::UnexpectedEof));
    assert_eq!(d.remaining(), 3);
}

#[test]
fn framed_stream_round_trip() {
    let m = GossipMsg::GetBlocks { from: 42 };
    let mut buf = frame_msg(&m).unwrap();
    let n = buf.len();
    buf.push(9); // the next message begins
    let (back, used) = unframe_msg(&buf).unwrap();
    assert!(matches!(back, GossipMsg::GetBlocks { from: 42 }));
    assert_eq!(used, n);
}

#[test]
fn decode_rejects_trailing_bytes() {
    let mut bytes = encode_gossip(&GossipMsg::Status { height: 1 });
    bytes.push(0);
    assert!(matches!(decode_gossip(&bytes), Err(CodecError::TrailingBytes)));
}

#[test]
fn fresh_node_syncs_the_whole_certified_chain() {
    let (blocks, certs) = certified_chain(3);
    assert_eq!(blocks.len(), 3);

    let mut seed_node = GossipNode::new(1, genesis(), 8, &[1, 2]);
    assert!(seed_node.load_certified(&engine, &blocks, &certs));
    let fresh = GossipNode::new(2, genesis(), 8, &[1, 2]);
    assert_eq!(fresh.height(), 0);

    let mut net = Network::new(vec![seed_node, fresh]);
    net.announce_all();
    net.run(&engine);

    assert!(net.converged(), "both nodes reach the same head");
    let a = net.node(1);
    let b = net.node(2);
    assert_eq!(b.height(), 3);
    assert_eq!(a.head(), b.head());
    assert_eq!(a.chain.state.state_root(), b.chain.state.state_root());
    // the synced node holds the same certified chain, cert-for-cert
    assert_eq!(a.certificates().len(), b.certificates().len());
    for (x, y) in a.certificates().iter().zip(b.certificates()) {
        assert_eq!(x.block_hash, y.block_hash);
    }
}

#[test]
fn sync_rejects_a_forged_certificate() {
    let (blocks, certs) = certified_chain(3);
    let mut fresh = GossipNode::new(2, genesis(), 8, &[1]);

    // hand it height 1 correctly, then a height-2 block with a mangled cert
    assert!(fresh.apply_certified(&engine, blocks[0].clone(), certs[0].clone()));
    let mut forged = certs[1].clone();
    forged.block_hash = [0xabu8; 32];
    assert!(!fresh.apply_certified(&engine, blocks[1].clone(), forged), "forged cert refused");
    assert_eq!(fresh.height(), 1, "chain stops at the gap, uncorrupted");

    // a batch that starts with the bad cert makes no progress at all
    let batch = vec![(blocks[1].clone(), {
        let mut c = certs[1].clone();
        c.precommits.truncate(1); // below quorum
        c
    })];
    let out = fresh.on_message(&engine, 1, GossipMsg::Blocks(batch));
    assert!(out.is_empty());
    assert_eq!(fresh.height(), 1);
}

#[test]
fn tx_gossip_reaches_every_node() {
    // three fully-connected fresh nodes; a tx injected at one floods to all
    let ids = [1u64, 2, 3];
    let nodes: Vec<GossipNode> =
        ids.iter().map(|&id| GossipNode::new(id, genesis(), 16, &ids)).collect();
    let mut net = Network::new(nodes);

    let t = tx(1, 1, 1);
    let h = t.hash();
    let out = net.nodes.get_mut(&1).unwrap().submit_local(t);
    net.inject(1, out);
    net.run(&engine);

    for id in ids {
        assert!(net.node(id).mempool.contains(&h), "node {id} received the tx");
    }
}

#[test]
fn a_duplicate_tx_does_not_re_flood() {
    let ids = [1u64, 2];
    let nodes: Vec<GossipNode> =
        ids.iter().map(|&id| GossipNode::new(id, genesis(), 16, &ids)).collect();
    let mut net = Network::new(nodes);
    let t = tx(1, 1, 1);
    let out = net.nodes.get_mut(&1).unwrap().submit_local(t.clone());
    net.inject(1, out);
    net.run(&engine);
    // re-injecting the same tx to node 2 yields no new forwarding
    let again = net.nodes.get_mut(&2).unwrap().on_message(&engine, 1, GossipMsg::Tx(t));
    assert!(again.is_empty(), "an already-seen tx is not re-gossiped");
}

#[test]
fn nodes_at_mixed_heights_all_converge() {
    let (blocks, certs) = certified_chain(3);
    // node 1 fully synced, node 2 at height 1, node 3 fresh — all connected
    let ids = [1u64, 2, 3];
    let mut n1 = GossipNode::new(1, genesis(), 8, &ids);
    n1.load_certified(&engine, &blocks, &certs);
    let mut n2 = GossipNode::new(2, genesis(), 8, &ids);
    n2.load_certified(&engine, &blocks[..1], &certs[..1]);
    let n3 = GossipNode::new(3, genesis(), 8, &ids);

    let mut net = Network::new(vec![n1, n2, n3]);
    net.announce_all();
    net.run(&engine);

    assert!(net.converged());
    for id in ids {
        assert_eq!(net.node(id).height(), 3, "node {id} caught up");
    }
    let root = net.node(1).chain.state.state_root();
    assert!(ids.iter().all(|&id| net.node(id).chain.state.state_root() == root));
}

#[test]
fn gossip_is_deterministic() {
    let (blocks, certs) = certified_chain(3);
    let build = || {
        let mut s = GossipNode::new(1, genesis(), 8, &[1, 2, 3]);
        s.load_certified(&engine, &blocks, &certs);
        let n2 = GossipNode::new(2, genesis(), 8, &[1, 2, 3]);
        let n3 = GossipNode::new(3, genesis(), 8, &[1, 2, 3]);
        let mut net = Network::new(vec![s, n2, n3]);
        net.announce_all();
        net.run(&engine);
        net.node(2).head()
    };
    assert_eq!(build(), build(), "same inputs -> same synced head");
}

// --- evidence and bonding requests --------------------------------------------

/// A well-formed, properly-signed piece of equivocation evidence. The offender
/// double-signs precommits for two different block hashes at (height=2, round=0).
fn sample_evidence(offender: u64) -> SlashEvidence {
    SlashEvidence {
        vote_a: Vote::signed(offender, 2, 0, [0xAAu8; 32], VoteType::Precommit, &kp(offender)),
        vote_b: Vote::signed(offender, 2, 0, [0xBBu8; 32], VoteType::Precommit, &kp(offender)),
    }
}

/// A signed bond op: account `a` bonds `amount` micro-units, signed by kp(a).
fn sample_bond(a: u64, amount: u64) -> StakeOp {
    StakeOp {
        account: a,
        kind: BondKind::Bond,
        amount,
        signature: [0u8; 64],
    }
    .signed(&kp(a))
}

#[test]
fn evidence_gossip_reaches_every_node() {
    // three fully-connected fresh nodes; an evidence injected at one floods to all
    let ids = [1u64, 2, 3];
    let nodes: Vec<GossipNode> =
        ids.iter().map(|&id| GossipNode::new(id, genesis(), 16, &ids)).collect();
    let mut net = Network::new(nodes);

    let ev = sample_evidence(1);
    let h = ev.hash();
    net.submit_evidence(1, ev.clone());
    net.run(&engine);

    for id in ids {
        let pending = net.node(id).pending_evidence();
        assert_eq!(pending.len(), 1, "node {id} staged one evidence");
        assert_eq!(pending[0].hash(), h, "node {id} holds the same evidence");
    }
}

#[test]
fn a_duplicate_evidence_does_not_re_flood() {
    let ids = [1u64, 2];
    let nodes: Vec<GossipNode> =
        ids.iter().map(|&id| GossipNode::new(id, genesis(), 16, &ids)).collect();
    let mut net = Network::new(nodes);
    let ev = sample_evidence(1);
    net.submit_evidence(1, ev.clone());
    net.run(&engine);
    // re-injecting the same evidence to node 2 yields no new forwarding
    let again =
        net.nodes.get_mut(&2).unwrap().on_message(&engine, 1, GossipMsg::Evidence(ev));
    assert!(again.is_empty(), "an already-seen evidence is not re-gossiped");
}

#[test]
fn a_malformed_evidence_is_silently_dropped() {
    // vote_a and vote_b carry the same block_hash — fails is_well_formed
    let bad = SlashEvidence {
        vote_a: Vote::signed(1, 2, 0, [0xAAu8; 32], VoteType::Precommit, &kp(1)),
        vote_b: Vote::signed(1, 2, 0, [0xAAu8; 32], VoteType::Precommit, &kp(1)),
    };
    assert!(!bad.is_well_formed());

    let mut node = GossipNode::new(1, genesis(), 16, &[1, 2]);
    let out = node.submit_local_evidence(bad.clone());
    assert!(out.is_empty(), "malformed evidence is not broadcast");
    assert!(node.pending_evidence().is_empty(), "malformed evidence is not staged");

    // receiving one from a peer is also dropped
    let out2 = node.on_message(&engine, 2, GossipMsg::Evidence(bad));
    assert!(out2.is_empty());
}

#[test]
fn stake_op_gossip_reaches_every_node() {
    let ids = [1u64, 2, 3];
    let nodes: Vec<GossipNode> =
        ids.iter().map(|&id| GossipNode::new(id, genesis(), 16, &ids)).collect();
    let mut net = Network::new(nodes);

    let op = sample_bond(1, 5 * MICRO);
    let h = op.hash();
    net.submit_stake_op(1, op.clone());
    net.run(&engine);

    for id in ids {
        let pending = net.node(id).pending_stake_ops();
        assert_eq!(pending.len(), 1, "node {id} staged one stake op");
        assert_eq!(pending[0].hash(), h);
    }
}

#[test]
fn staged_items_are_handed_over_once() {
    let mut n = GossipNode::new(1, genesis(), 16, &[1, 2]);
    let ev = sample_evidence(1);
    let op = sample_bond(1, 5);
    assert_eq!(n.on_message(&engine, 2, GossipMsg::Evidence(ev.clone())).len(), 0);
    assert_eq!(n.submit_local_stake_op(op.clone()).len(), 1);
    assert_eq!(n.take_pending_evidence().len(), 1);
    assert_eq!(n.take_pending_stake_ops().len(), 1);
    assert!(n.take_pending_evidence().is_empty());
    // what was handed over does not come back with a re-delivery
    n.on_message(&engine, 2, GossipMsg::Evidence(ev));
    n.on_message(&engine, 2, GossipMsg::StakeOp(op));
    assert!(n.pending_evidence().is_empty());
    assert!(n.pending_stake_ops().is_empty());
}

// --- header-only sync ---------------------------------------------------------

/// Per-height committed sets from an authoritative replay: `sets[i]` is the
/// validator set that certifies height `i + 2`.
fn committed_sets(g: &Genesis, blocks: &[Block]) -> Vec<ValidatorSet> {
    let mut replay = Chain::new(g.clone());
    let mut sets = Vec::new();
    for b in blocks {
        replay.commit(&engine, b).expect("commit");
        sets.push(replay.state.validators.clone());
    }
    sets
}

/// Replay a full chain and return its final validator set.
fn authoritative_final_set(g: &Genesis, blocks: &[Block]) -> ValidatorSet {
    let mut replay = Chain::new(g.clone());
    for b in blocks {
        replay.commit(&engine, b).expect("commit");
    }
    replay.state.validators.clone()
}

#[test]
fn full_node_serves_headers_in_response_to_get_headers() {
    let (blocks, certs) = certified_chain(3);
    let mut full = GossipNode::new(1, genesis(), 8, &[1, 2]);
    full.load_certified(&engine, &blocks, &certs);

    // a fresh peer asks for headers from height 1.
    let out = full.on_message(&engine, 2, GossipMsg::GetHeaders { from: 1 });
    assert_eq!(out.len(), 1, "full node replies with one Headers batch");
    let (_, GossipMsg::Headers(batch)) = &out[0] else {
        panic!("expected Headers, got {:?}", out[0])
    };
    assert_eq!(batch.len(), 3, "full node serves every retained header");
    for (i, ch) in batch.iter().enumerate() {
        assert_eq!(ch.height(), (i + 1) as u64);
        assert_eq!(ch.cert.block_hash, ch.header.hash());
    }
}

#[test]
fn light_node_pulls_headers_and_tracks_validator_set() {
    let (blocks, certs) = certified_chain(3);
    let mut full = GossipNode::new(1, genesis(), 8, &[1, 2]);
    full.load_certified(&engine, &blocks, &certs);
    let light_id = 2u64;
    let light = LightGossipNode::new(light_id, &genesis(), &[1, 2]);

    let mut net = LightNetwork::new(vec![full], vec![light]);

    // Per-height authoritative next sets from a full replay.
    let sets = committed_sets(&genesis(), &blocks);
    let next_set_for = |h: u64| sets.get((h - 1) as usize).cloned();

    net.announce_all();
    for _ in 0..10 {
        let n = net.run(&engine, 1, light_id, &next_set_for);
        if n == 0 {
            break;
        }
    }

    let l = net.light_node(light_id);
    assert_eq!(l.tracker().height(), 3, "light node reached the full node's height");
    let authoritative = authoritative_final_set(&genesis(), &blocks);
    assert_eq!(
        l.tracker().validators().merkle_root(),
        authoritative.merkle_root(),
        "light-tracked set equals authoritative replayed set"
    );
}

#[test]
fn light_node_rejects_a_wrong_next_set_for_a_header() {
    // If a malicious peer hands us a header but a *different* next set, the tracker
    // stays at its prior height.
    let (blocks, certs) = certified_chain(2);
    let light_id = 2u64;

    // Manually drive the light peer with a bad next set for block 1.
    let mut light = LightGossipNode::new(light_id, &genesis(), &[1]);
    let ch = CertifiedHeader::from_certified(&blocks[0], &certs[0]);
    let bad_set = ValidatorSet::new(vec![Validator {
        id: 99,
        pubkey: Keypair::from_seed([7u8; 32]).public(),
        power: 1,
    }]);
    let err = light.apply_header(ch, &bad_set).unwrap_err();
    assert!(matches!(err, LightError::ValidatorRootMismatch { .. }), "got {err:?}");
    assert_eq!(light.tracker().height(), 0, "tracker unchanged on rejection");
}

#[test]
fn a_refused_header_may_come_again() {
    let (blocks, certs) = certified_chain(1);
    let good_set = authoritative_final_set(&genesis(), &blocks);
    let bad_set = ValidatorSet::new(vec![Validator {
        id: 99,
        pubkey: Keypair::from_seed([7u8; 32]).public(),
        power: 1,
    }]);
    let ch = || CertifiedHeader::from_certified(&blocks[0], &certs[0]);
    let mut light = LightGossipNode::new(2, &genesis(), &[1]);
    assert!(light.apply_header(ch(), &bad_set).is_err());
    assert!(light.apply_header(ch(), &bad_set).is_err());
    assert!(light.apply_header(ch(), &good_set).unwrap() >= 3);
    assert_eq!(light.tracker().height(), 1);
    assert_eq!(light.headers().len(), 1);
}

#[test]
fn header_gossip_shrinks_the_wire_payload_vs_full_blocks() {
    // A header-only batch is smaller than a block batch because bodies are not
    // carried.
    let (blocks, certs) = certified_chain(3);
    let full_batch: Vec<(Block, Commit)> =
        blocks.iter().cloned().zip(certs.iter().cloned()).collect();
    let header_batch: Vec<CertifiedHeader> = blocks
        .iter()
        .zip(certs.iter())
        .map(|(b, c)| CertifiedHeader::from_certified(b, c))
        .collect();

    let full_bytes: usize =
        full_batch.iter().map(|(b, c)| encode_block(b).len() + encode_commit(c).len()).sum();
    let header_bytes: usize =
        header_batch.iter().map(|ch| encode_certified_header(ch).len()).sum();

    assert!(
        header_bytes < full_bytes,
        "header-only payload ({header_bytes} B) must be strictly smaller than full-block payload ({full_bytes} B)"
    );
}

#[test]
fn follow_header_advances_the_tracker_with_no_block_bodies() {
    // The same chain, a different verification path (no bodies seen), must reach
    // the same set.
    let (blocks, certs) = certified_chain(3);
    let sets = committed_sets(&genesis(), &blocks);

    let mut lt = ValidatorTracker::from_genesis(&genesis());
    for (i, (b, c)) in blocks.iter().zip(certs.iter()).enumerate() {
        let ch = CertifiedHeader::from_certified(b, c);
        lt.follow_header(&ch.header, &ch.cert, &sets[i]).expect("follow_header");
    }
    assert_eq!(lt.height(), 3);
    let authoritative = authoritative_final_set(&genesis(), &blocks);
    assert_eq!(lt.validators().merkle_root(), authoritative.merkle_root());
}

#[test]
fn a_tracker_refuses_a_header_for_its_first_fault() {
    let (blocks, certs) = certified_chain(2);
    let set = authoritative_final_set(&genesis(), &blocks);
    let mut lt = ValidatorTracker::from_genesis(&genesis());
    let h1 = BlockHeader::from_block(&blocks[0]);
    let h2 = BlockHeader::from_block(&blocks[1]);
    assert_eq!(
        lt.follow_header(&h2, &certs[1], &set),
        Err(LightError::WrongHeight { reached: 0, got: 2 })
    );
    let mut other = certs[0].clone();
    other.block_hash = [1u8; 32];
    assert_eq!(lt.follow_header(&h1, &other, &set), Err(LightError::CertificateMismatch));
    let mut thin = certs[0].clone();
    thin.precommits.truncate(1);
    assert!(matches!(lt.follow_header(&h1, &thin, &set), Err(LightError::BadCertificate(_))));
    assert_eq!(lt.height(), 0);
    assert!(lt.follow_header(&h1, &certs[0], &set).unwrap() >= 3);
}

#[test]
fn a_light_peer_ignores_repeated_and_early_headers() {
    let (blocks, certs) = certified_chain(2);
    let set = authoritative_final_set(&genesis(), &blocks);
    let ch = |i: usize| CertifiedHeader::from_certified(&blocks[i], &certs[i]);
    let mut light = LightGossipNode::new(2, &genesis(), &[1]);
    assert_eq!(light.apply_header(ch(1), &set), Ok(0)); // a gap: nothing happens
    let power = light.apply_header(ch(0), &set).unwrap();
    assert!(power >= 3);
    assert_eq!(light.apply_header(ch(0), &set), Ok(1)); // known: the height
    light.apply_header(ch(1), &set).unwrap();
    assert_eq!(light.tracker().height(), 2);
    assert_eq!(light.headers().len(), 2);
}

// --- batched proofs -----------------------------------------------------------

/// The root that an entry of a full peer opens.
fn root_for(full: &GossipNode, entry: &ProofEntry) -> [u8; 32] {
    match entry {
        ProofEntry::Account { .. }
        | ProofEntry::Reviewer { .. }
        | ProofEntry::GraphNode { .. } => full.chain.state.merkle_root(),
        ProofEntry::Validator { .. } => full.chain.state.validators.merkle_root(),
    }
}

#[test]
fn full_node_serves_a_batch_of_proofs_in_response_to_get_proof() {
    let (blocks, certs) = certified_chain(2);
    let mut full = GossipNode::new(1, genesis(), 8, &[1]);
    full.load_certified(&engine, &blocks, &certs);

    let request = GossipMsg::GetProof {
        items: vec![
            (ProofKind::Account, 1),
            (ProofKind::Reviewer, 10),
            (ProofKind::Validator, 21),
        ],
    };
    let mut out = full.on_message(&engine, 99, request);
    assert_eq!(out.len(), 1);
    let (dst, msg) = out.pop().unwrap();
    assert_eq!(dst, 99);
    let entries = match msg {
        GossipMsg::Proof { items } => items,
        other => panic!("expected Proof, got {other:?}"),
    };
    assert_eq!(entries.len(), 3);

    for (i, e) in entries.iter().enumerate() {
        let entry = e.as_ref().unwrap_or_else(|| panic!("entry {i} should be Some"));
        let leaf = merkle::leaf_hash(&entry.leaf());
        assert!(
            merkle::verify(&root_for(&full, entry), &leaf, entry.path()),
            "entry {i} ({:?}) failed to verify locally",
            entry.kind()
        );
    }
}

/// A full and a light peer, the light one brought up to height 2.
fn synced_pair() -> LightNetwork {
    let (blocks, certs) = certified_chain(2);
    let mut full = GossipNode::new(1, genesis(), 8, &[1, 2]);
    full.load_certified(&engine, &blocks, &certs);
    let light = LightGossipNode::new(2, &genesis(), &[1, 2]);
    let mut net = LightNetwork::new(vec![full], vec![light]);
    let sets = committed_sets(&genesis(), &blocks);
    let next_set_for = |h: u64| sets.get((h - 1) as usize).cloned();
    net.announce_all();
    for _ in 0..20 {
        let n = net.run(&engine, 1, 2, &next_set_for);
        if n == 0 && net.light_node(2).tracker().height() == 2 {
            break;
        }
    }
    net
}

#[test]
fn light_node_proves_account_reviewer_and_validator_against_a_cert_signed_header() {
    // After header sync, the light wallet sends ONE batched GetProof. All three
    // entries arrive in one Proof response, get cached, and get verified.
    let light_id = 2u64;
    let mut net = synced_pair();
    let lt = net.light_node(light_id).tracker().clone();
    assert_eq!(lt.height(), 2);

    let mut full_node = net.take_full(1);
    let mut light_node = net.take_light(light_id);
    let reply = full_node.on_message(
        &engine,
        light_id,
        GossipMsg::GetProof {
            items: vec![
                (ProofKind::Account, 1),
                (ProofKind::Reviewer, 10),
                (ProofKind::Validator, 21),
            ],
        },
    );
    assert_eq!(reply.len(), 1);
    let (_dst, proof_msg) = reply.into_iter().next().unwrap();
    light_node.on_message(1, proof_msg);

    let acct = light_node.take_proof(ProofKind::Account, 1).expect("account proof cached");
    let rev = light_node.take_proof(ProofKind::Reviewer, 10).expect("standing proof cached");
    let val = light_node.take_proof(ProofKind::Validator, 21).expect("validator proof cached");
    assert!(light_node.take_proof(ProofKind::Account, 1).is_none());

    // headers carry no state root: the account and the reputation open the full peer's
    for e in [&acct, &rev, &val] {
        let leaf = merkle::leaf_hash(&e.leaf());
        assert!(merkle::verify(&root_for(&full_node, e), &leaf, e.path()));
    }
    // the validator opens the set that the certified headers led to
    let ProofEntry::Validator { validator, path, .. } = &val else {
        panic!("expected Validator entry");
    };
    lt.verify_membership(validator, path).expect("light wallet proves validator 21");

    net.put_full(full_node);
    net.put_light(light_node);
    assert_eq!(net.full_node(1).height(), net.light_node(light_id).tracker().height());
}

#[test]
fn light_node_rejects_a_tampered_validator_proof() {
    // The wallet tampers with the validator's power. The locally-recomputed leaf no
    // longer matches the proof's path.
    let light_id = 2u64;
    let mut net = synced_pair();
    let lt = net.light_node(light_id).tracker().clone();

    let mut full_node = net.take_full(1);
    let mut light_node = net.take_light(light_id);
    let reply = full_node.on_message(
        &engine,
        light_id,
        GossipMsg::GetProof { items: vec![(ProofKind::Validator, 21)] },
    );
    let (_dst, proof_msg) = reply.into_iter().next().unwrap();
    light_node.on_message(1, proof_msg);

    let entry =
        light_node.take_proof(ProofKind::Validator, 21).expect("validator proof cached");
    // Tamper: bump the validator's power by 1.
    let ProofEntry::Validator { mut validator, path, .. } = entry else {
        panic!("expected Validator entry");
    };
    validator.power += 1;
    let err = lt.verify_membership(&validator, &path).unwrap_err();
    assert!(matches!(err, LightError::MembershipProofInvalid { .. }), "got {err:?}");
    net.put_full(full_node);
    net.put_light(light_node);
}

#[test]
fn full_node_serves_a_reviewer_proof_for_a_reviewer_id_not_in_accounts() {
    let (blocks, certs) = certified_chain(1);
    let mut full = GossipNode::new(1, genesis(), 8, &[1]);
    full.load_certified(&engine, &blocks, &certs);

    let request = GossipMsg::GetProof { items: vec![(ProofKind::Reviewer, 11)] };
    let mut out = full.on_message(&engine, 99, request);
    let (_dst, msg) = out.pop().unwrap();
    let entry = match msg {
        GossipMsg::Proof { mut items } => items.pop().unwrap(),
        other => panic!("expected Proof, got {other:?}"),
    };
    let entry = entry.expect("entry 11 exists in the chain");
    let ProofEntry::Reviewer { id, reputation, path } = entry else {
        panic!("expected a standing entry");
    };
    assert_eq!(id, 11);
    assert!(f32::from_bits(reputation) >= 0.0);
    // Local verification against the full peer's root.
    let leaf = merkle::leaf_hash(&Reviewer { id, reputation }.merkle_leaf());
    assert!(merkle::verify(&full.chain.state.merkle_root(), &leaf, &path));
}

#[test]
fn get_proof_with_too_many_items_is_a_codec_error() {
    // 33 items > MAX_PROOF_BATCH (=32). The decoder must reject before any responder
    // code runs.
    let items: Vec<(ProofKind, u64)> = (0..33).map(|i| (ProofKind::Account, i)).collect();
    let msg = GossipMsg::GetProof { items };
    let bytes = encode_gossip(&msg);
    let err = decode_gossip(&bytes).unwrap_err();
    assert!(matches!(err, CodecError::TooManyItems(33)));
}

#[test]
fn proof_request_for_unknown_id_yields_none_in_the_response() {
    let (blocks, certs) = certified_chain(1);
    let mut full = GossipNode::new(1, genesis(), 8, &[1]);
    full.load_certified(&engine, &blocks, &certs);

    let request = GossipMsg::GetProof { items: vec![(ProofKind::Account, 999)] };
    let mut out = full.on_message(&engine, 99, request);
    let (_dst, msg) = out.pop().unwrap();
    let entries = match msg {
        GossipMsg::Proof { items } => items,
        other => panic!("expected Proof, got {other:?}"),
    };
    assert_eq!(entries.len(), 1);
    assert!(entries[0].is_none(), "unknown id must produce None, got {:?}", entries[0]);

    // And the wallet sees a cache miss.
    let mut light = LightGossipNode::new(99, &genesis(), &[1]);
    let reply = full.on_message(
        &engine,
        99,
        GossipMsg::GetProof { items: vec![(ProofKind::Account, 999)] },
    );
    let (_dst, proof_msg) = reply.into_iter().next().unwrap();
    light.on_message(1, proof_msg);
    assert!(light.take_proof(ProofKind::Account, 999).is_none());
}

#[test]
fn full_node_serves_a_graph_node_proof_in_response_to_get_proof() {
    let (blocks, certs) = certified_chain(2);
    let mut full = GossipNode::new(1, genesis(), 8, &[1]);
    full.load_certified(&engine, &blocks, &certs);

    assert!(!full.chain.state.graph.nodes.is_empty());
    let idx = 0;
    let expected_node = full.chain.state.graph.nodes[idx].clone();

    let request = GossipMsg::GetProof { items: vec![(ProofKind::GraphNode, idx as u64)] };
    let mut out = full.on_message(&engine, 99, request);
    let (_dst, msg) = out.pop().unwrap();
    let entries = match msg {
        GossipMsg::Proof { items } => items,
        other => panic!("expected Proof, got {other:?}"),
    };
    assert_eq!(entries.len(), 1);
    let entry = entries[0].as_ref().expect("graph node proof must be Some");

    // Wire shape: it's a GraphNode entry with the right node_id.
    match entry {
        ProofEntry::GraphNode { node_id, graph_node, .. } => {
            assert_eq!(*node_id, expected_node.node_id);
            assert_eq!(*graph_node, expected_node);
        }
        other => panic!("expected GraphNode, got {other:?}"),
    }

    let leaf = merkle::leaf_hash(&entry.leaf());
    let root = &full.chain.state.merkle_root();
    assert!(
        merkle::verify(root, &leaf, entry.path()),
        "graph node proof must verify against the state's root"
    );

    // Light-side cache: the reply arrives, the wallet pulls it.
    let mut light = LightGossipNode::new(99, &genesis(), &[1]);
    light.on_message(1, GossipMsg::Proof { items: vec![Some(entry.clone())] });
    let cached = light
        .take_proof(ProofKind::GraphNode, expected_node.node_id)
        .expect("light cache must hold the graph node proof");
    match cached {
        ProofEntry::GraphNode { node_id, .. } => {
            assert_eq!(node_id, expected_node.node_id);
        }
        other => panic!("expected cached GraphNode, got {other:?}"),
    }
}

#[test]
fn full_node_serves_a_batched_request_mixing_account_reviewer_validator_and_graph_node() {
    let (blocks, certs) = certified_chain(2);
    let mut full = GossipNode::new(1, genesis(), 8, &[1]);
    full.load_certified(&engine, &blocks, &certs);
    assert!(!full.chain.state.graph.nodes.is_empty());

    let request = GossipMsg::GetProof {
        items: vec![
            (ProofKind::Account, 1),
            (ProofKind::Reviewer, 10),
            (ProofKind::Validator, 21),
            (ProofKind::GraphNode, 0),
        ],
    };
    let mut out = full.on_message(&engine, 99, request);
    let (_dst, msg) = out.pop().unwrap();
    let entries = match msg {
        GossipMsg::Proof { items } => items,
        other => panic!("expected Proof, got {other:?}"),
    };
    assert_eq!(entries.len(), 4);
    for (i, e) in entries.iter().enumerate() {
        e.as_ref().unwrap_or_else(|| panic!("entry {i} must be Some"));
    }

    // Each entry must verify locally against the right root.
    for (i, e) in entries.iter().enumerate() {
        let entry = e.as_ref().unwrap();
        let leaf = merkle::leaf_hash(&entry.leaf());
        assert!(
            merkle::verify(&root_for(&full, entry), &leaf, entry.path()),
            "entry {i} ({:?}) failed to verify locally",
            entry.kind()
        );
    }
}

#[test]
fn an_oversized_proof_request_is_not_answered() {
    let mut full = GossipNode::new(1, genesis(), 8, &[1]);
    let items = vec![(ProofKind::Account, 1); MAX_PROOF_BATCH + 1];
    assert!(full.on_message(&engine, 99, GossipMsg::GetProof { items }).is_empty());
}

// --- exact messages -----------------------------------------------------------

#[test]
fn messages_have_their_bytes() {
    assert_eq!(
        encode_gossip(&GossipMsg::Status { height: 258 }),
        vec![0, 0, 0, 0, 0, 0, 0, 1, 2]
    );
    assert_eq!(
        encode_gossip(&GossipMsg::GetHeaders { from: 1 }),
        vec![6, 0, 0, 0, 0, 0, 0, 0, 1]
    );
    assert_eq!(
        encode_gossip(&GossipMsg::GetProof { items: vec![(ProofKind::Account, 7)] })[..5],
        [8, 0, 0, 0, 1]
    );
    assert_eq!(
        encode_gossip(&GossipMsg::Proof { items: vec![None, None] }),
        vec![9, 0, 0, 0, 2, 0, 0]
    );
    assert_eq!(
        frame_msg(&GossipMsg::Status { height: 1 }).unwrap(),
        vec![0, 0, 0, 9, 0, 0, 0, 0, 0, 0, 0, 0, 1]
    );
}

#[test]
fn broken_messages_say_how() {
    let fault = |bytes: &[u8]| decode_gossip(bytes).unwrap_err();
    assert_eq!(fault(&[]), CodecError::UnexpectedEof);
    assert_eq!(fault(&[0, 1]), CodecError::UnexpectedEof);
    assert_eq!(fault(&[10]), CodecError::BadEnum(10));
    assert_eq!(fault(&[9, 0, 0, 0, 1, 2]), CodecError::BadEnum(2));
    assert_eq!(fault(&[2, 0, 0, 0, 0, 0, 0, 1, 1]), CodecError::TooManyItems(257));
    assert_eq!(fault(&[7, 0, 0, 0, 0, 0, 0, 1, 1]), CodecError::TooManyItems(257));
    assert_eq!(fault(&[8, 0, 0, 0, 1, 77]), CodecError::BadEnum(77));
    assert_eq!(unframe_msg(&[0, 0, 0, 9, 0]).unwrap_err(), CodecError::UnexpectedEof);
}

#[test]
fn nodes_answer_heights() {
    let (blocks, certs) = certified_chain(3);
    let mut full = GossipNode::new(1, genesis(), 8, &[1, 2]);
    full.load_certified(&engine, &blocks, &certs);
    // a taller peer is asked, a lower one is served, an equal one is left alone
    let out = full.on_message(&engine, 5, GossipMsg::Status { height: 9 });
    assert!(matches!(out[..], [(5, GossipMsg::GetBlocks { from: 4 })]));
    let out = full.on_message(&engine, 5, GossipMsg::Status { height: 1 });
    let [(5, GossipMsg::Blocks(batch))] = &out[..] else { panic!("expected Blocks") };
    assert_eq!(batch.len(), 2);
    assert_eq!(batch[0].0.hash(), blocks[1].hash());
    assert!(full.on_message(&engine, 5, GossipMsg::Status { height: 3 }).is_empty());
    assert!(full.on_message(&engine, 5, GossipMsg::GetBlocks { from: 4 }).is_empty());
    assert!(full.on_message(&engine, 5, GossipMsg::GetBlocks { from: 0 }).is_empty());
    // whoever wrote is a peer from then on
    let to: Vec<u64> = full.announce().iter().map(|(p, _)| *p).collect();
    assert_eq!(to, vec![2, 5]);
    assert_eq!(full.certified_headers().len(), 3);
    assert_eq!(full.headers_from(3).len(), 1);
    assert!(full.headers_from(0).is_empty());
}

#[test]
fn a_node_that_grows_tells_its_other_peers() {
    let (blocks, certs) = certified_chain(2);
    let mut fresh = GossipNode::new(3, genesis(), 8, &[1, 2, 3]);
    let batch: Vec<(Block, Commit)> = blocks.iter().cloned().zip(certs.iter().cloned()).collect();
    let out = fresh.on_message(&engine, 1, GossipMsg::Blocks(batch));
    assert!(matches!(out[..], [(2, GossipMsg::Status { height: 2 })]));
    assert_eq!(fresh.blocks().len(), 2);
    assert!(fresh.chain.state.supply_conserved());
}

#[test]
fn a_submission_leaves_the_pool_with_its_block() {
    let (blocks, certs) = certified_chain(1);
    let mut n = GossipNode::new(3, genesis(), 8, &[1]);
    let t = blocks[0].txs[0].clone();
    assert_eq!(n.submit_local(t.clone()).len(), 1);
    assert!(n.mempool.contains(&t.hash()));
    assert!(n.apply_certified(&engine, blocks[0].clone(), certs[0].clone()));
    assert!(!n.mempool.contains(&t.hash()));
    // an invalid submission is neither pooled nor passed on
    let bad = SubmissionTx { stake: 9, ..t };
    assert!(n.submit_local(bad).is_empty());
}

#[test]
fn nodes_are_changed_in_place() {
    let mut net = Network::new(vec![
        GossipNode::new(1, genesis(), 8, &[1, 2]),
        GossipNode::new(2, genesis(), 8, &[1, 2]),
    ]);
    let (blocks, certs) = certified_chain(1);
    assert!(net.node_mut(2).load_certified(&engine, &blocks, &certs));
    assert_eq!(net.node(2).height(), 1);
    assert_eq!(net.node(1).height(), 0);
    assert!(!net.converged());
    assert_eq!(net.ids(), vec![1, 2]);
    net.submit(2, tx(3, 3, 3));
    net.run(&engine);
    assert!(net.node(1).mempool.contains(&tx(3, 3, 3).hash()));
}

#[test]
fn light_peers_only_pull_headers() {
    let mut light = LightGossipNode::new(2, &genesis(), &[1, 2]);
    let out = light.on_message(1, GossipMsg::Status { height: 4 });
    assert!(matches!(out[..], [(1, GossipMsg::GetHeaders { from: 1 })]));
    assert!(light.on_message(1, GossipMsg::Status { height: 0 }).is_empty());
    assert!(light.on_message(1, GossipMsg::Tx(tx(1, 1, 1))).is_empty());
    assert!(light.on_message(1, GossipMsg::GetHeaders { from: 1 }).is_empty());
    let (blocks, certs) = certified_chain(1);
    let ch = CertifiedHeader::from_certified(&blocks[0], &certs[0]);
    let out = light.on_message(1, GossipMsg::Headers(vec![ch]));
    assert!(matches!(out[..], [(1, GossipMsg::Status { height: 0 })]));
    let to: Vec<u64> = light.announce().iter().map(|(p, _)| *p).collect();
    assert_eq!(to, vec![1]);
    assert_eq!(light.tracker_mut().height(), 0);
}

#[test]
fn a_larger_network_converges_to_the_tallest() {
    let (blocks, certs) = certified_chain(4);
    assert_eq!(blocks.len(), 4);
    let ids = [1u64, 2, 3, 4, 5];
    let nodes: Vec<GossipNode> = ids
        .iter()
        .map(|&id| {
            let h = (id - 1) as usize;
            let mut n = GossipNode::new(id, genesis(), 8, &ids);
            assert!(n.load_certified(&engine, &blocks[..h], &certs[..h]));
            n
        })
        .collect();
    let mut net = Network::new(nodes);
    net.announce_all();
    let delivered = net.run(&engine);
    assert!(delivered <= 3 * 6 * 5 * 5);
    assert!(net.converged());
    for id in ids {
        assert_eq!(net.node(id).height(), 4);
        assert_eq!(net.node(id).head(), blocks[3].hash());
    }
    assert_eq!(net.run(&engine), 0);
}

#[test]
fn a_rumor_takes_few_messages() {
    let ids = [1u64, 2, 3, 4];
    let nodes: Vec<GossipNode> =
        ids.iter().map(|&id| GossipNode::new(id, genesis(), 16, &ids)).collect();
    let mut net = Network::new(nodes);
    net.submit(3, tx(1, 1, 1));
    let delivered = net.run(&engine);
    assert!(delivered <= 4 * 5);
    for id in ids {
        assert!(net.node(id).mempool.contains(&tx(1, 1, 1).hash()));
    }
}
