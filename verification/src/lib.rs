//! A deterministic proof-of-knowledge node.
//!
//! Given the same genesis, the same blocks and the same delta-K engine, every node
//! computes the same state, byte for byte. The library holds the state machine and
//! what is built around it: the canonical encoding, the hash-linked chain, Merkle
//! commitments and inclusion proofs, the pool and the block builder, finality
//! certificates, the chain driver, gossip between full and light peers, and the block
//! log.

use vstd::prelude::*;

pub mod agreement;
pub mod answers;
pub mod bytes;
pub mod chain;
pub mod clock;
pub mod codec;
pub mod commitment;
pub mod consensus;
pub mod crypto;
pub mod delivery;
pub mod driver;
pub mod flood;
pub mod gossip;
pub mod graph;
pub mod hash;
pub mod ieee;
pub mod layout;
pub mod ledger;
pub mod light;
pub mod light_network;
pub mod mempool;
pub mod merkle;
pub mod network;
pub mod node;
pub mod ordered;
pub mod parse;
pub mod roots;
pub mod round;
pub mod seen;
pub mod settlement;
pub mod spv;
pub mod state;
pub mod store;
pub mod sync;
pub mod text;
pub mod tracking;
pub mod tx;
pub mod validator;
pub mod wire;

pub use chain::Chain;
pub use consensus::{BondKind, Commit, SlashEvidence, StakeOp, Vote, VoteType};
pub use crypto::Keypair;
pub use graph::DIM;
pub use hash::{hex, sha256};
pub use roots::Reviewer;
pub use state::{Account, BlockReceipt, ChainError, ChainState, Genesis, TxReceipt};
pub use tx::{Block, Review, SubmissionTx};
pub use validator::{Validator, ValidatorSet};

verus! {

/// A SHA-256 digest.
pub type Digest = [u8; 32];

/// An ed25519 public key.
pub type PubKey = [u8; 32];

/// An ed25519 signature.
pub type Sig = [u8; 64];

/// An embedding: the bit pattern of each coordinate.
pub type Embedding = [u32; graph::DIM];

/// Micro-units in one unit of account. All balances are whole micro-units.
pub const MICRO: u64 = 1_000_000;

} // verus!
