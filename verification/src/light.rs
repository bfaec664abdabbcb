//! Light clients: headers without bodies, a tracker of the validator set, and
//! entries of the state with their inclusion proofs.
//!
//! A block commits to its submissions and its history, not to the state after it, so a
//! header carries no state root. What a wallet can check under a certificate is
//! therefore the block's hash and, since blocks do not change the validator set, that a
//! validator belongs to the tracked set. An account, a reputation or a graph node opens
//! the Merkle root of the full peer's state: a wallet that has that root from the same
//! peer can check that the entry belongs to it, but not that the root is the one that
//! the certified chain leads to.

use vstd::prelude::*;

use crate::bytes::same_bytes;
use crate::consensus;
use crate::consensus::{Commit, CommitView, ConsensusError};
use crate::graph::GraphNode;
use crate::merkle;
use crate::merkle::{leaf_hash, Proof, Step};
use crate::roots;
use crate::roots::Reviewer;
use crate::state;
use crate::state::{genesis_validators, Account, Genesis, GenesisView};
use crate::tx;
use crate::tx::{Block, BlockView};
use crate::validator;
use crate::validator::{Validator, ValidatorSet};
use crate::Digest;

verus! {

// --- headers ------------------------------------------------------------------

/// A block without its body. A certificate binds its height and its hash; the hash
/// covers the rest of the block, which only one who has the body can compare. There is
/// no root of the state or of the next validators in it.
#[derive(Clone, Copy, Debug, PartialEq, Eq)]
pub struct BlockHeader {
    pub height: u64,
    pub prev_hash: Digest,
    pub timestamp_days: u32,
    /// The content hash of the whole block.
    pub block_hash: Digest,
}

/// The header of a block.
pub open spec fn header_of(b: BlockView) -> BlockHeader {
    BlockHeader {
        height: b.height,
        prev_hash: b.prev_hash,
        timestamp_days: b.timestamp_days,
        block_hash: tx::block_hash(b),
    }
}

impl BlockHeader {
    /// The header of a block.
    pub fn from_block(b: &Block) -> (r: BlockHeader)
        ensures
            r == header_of(b@),
    {
        BlockHeader {
            height: b.height,
            prev_hash: b.prev_hash,
            timestamp_days: b.timestamp_days,
            block_hash: b.hash(),
        }
    }

    /// The hash of the block that this is the header of.
    pub fn hash(&self) -> (r: Digest)
        ensures
            r == self.block_hash,
    {
        self.block_hash
    }
}

/// A header with the certificate of its block.
#[derive(Debug)]
pub struct CertifiedHeader {
    pub header: BlockHeader,
    pub cert: Commit,
}

#[verifier::ext_equal]
pub struct CertifiedView {
    pub header: BlockHeader,
    pub cert: CommitView,
}

impl View for CertifiedHeader {
    type V = CertifiedView;

    open spec fn view(&self) -> CertifiedView {
        CertifiedView { header: self.header, cert: self.cert@ }
    }
}

impl Clone for CertifiedHeader {
    fn clone(&self) -> (r: CertifiedHeader)
        ensures
            r@ == self@,
    {
        CertifiedHeader { header: self.header, cert: self.cert.clone() }
    }
}

impl CertifiedHeader {
    /// The header of a block with the block's certificate.
    pub fn from_certified(b: &Block, cert: &Commit) -> (r: CertifiedHeader)
        ensures
            r@ == (CertifiedView { header: header_of(b@), cert: cert@ }),
    {
        CertifiedHeader { header: BlockHeader::from_block(b), cert: cert.clone() }
    }

    /// The height of the block.
    pub fn height(&self) -> (r: u64)
        ensures
            r == self@.header.height,
    {
        self.header.height
    }

    /// The hash of the block.
    pub fn block_hash(&self) -> (r: Digest)
        ensures
            r == self@.header.block_hash,
    {
        self.header.block_hash
    }
}

// --- the tracker --------------------------------------------------------------

/// Why a header or a proof was refused.
#[derive(Clone, Copy, Debug, PartialEq, Eq)]
pub enum LightError {
    /// The header does not stand one above the tracked height.
    WrongHeight { reached: u64, got: u64 },
    /// The certificate is for another block.
    CertificateMismatch,
    /// The certificate does not verify under the tracked validators.
    BadCertificate(ConsensusError),
    /// The validator set handed over is not the one that is committed to.
    ValidatorRootMismatch { expected: Digest, found: Digest },
    /// The proof does not lead from the entry to the root.
    MembershipProofInvalid { id: u64 },
}

/// The height that has been followed, and the validators that certify the next.
pub struct ValidatorTracker {
    pub height: u64,
    pub validators: ValidatorSet,
}

#[verifier::ext_equal]
pub struct TrackerView {
    pub height: u64,
    pub validators: Seq<Validator>,
}

impl View for ValidatorTracker {
    type V = TrackerView;

    open spec fn view(&self) -> TrackerView {
        TrackerView { height: self.height, validators: self.validators@ }
    }
}

impl Clone for ValidatorTracker {
    fn clone(&self) -> (r: ValidatorTracker)
        ensures
            r@ == self@,
    {
        ValidatorTracker { height: self.height, validators: self.validators.clone() }
    }
}

/// A tracker at genesis.
pub open spec fn genesis_tracker(g: GenesisView) -> TrackerView {
    TrackerView {
        height: 0,
        validators: validator::set_of(state::listed_validators(g.validators)),
    }
}

/// A header followed: it must be the next, its certificate must be for its block and
/// verify under the tracked validators, and the next validators must have the
/// committed root. Blocks do not change the validator set, so that is the root of
/// the tracked set.
pub open spec fn followed(
    t: TrackerView,
    h: BlockHeader,
    cert: CommitView,
    next: Seq<Validator>,
) -> Result<(TrackerView, u64), LightError> {
    if h.height != t.height + 1 {
        Err(LightError::WrongHeight { reached: t.height, got: h.height })
    } else if cert.height != h.height || cert.block_hash != h.block_hash {
        Err(LightError::CertificateMismatch)
    } else {
        match consensus::certified(t.validators, cert) {
            Err(e) => Err(LightError::BadCertificate(e)),
            Ok(power) => if validator::set_root(next) != validator::set_root(t.validators) {
                Err(
                    LightError::ValidatorRootMismatch {
                        expected: validator::set_root(t.validators),
                        found: validator::set_root(next),
                    },
                )
            } else {
                Ok((TrackerView { height: h.height, validators: next }, power))
            },
        }
    }
}

/// A followed header is certified by a quorum of the tracked validators, for its own
/// height and block; the height grows by one and the validators keep their root.
pub proof fn law_followed_headers_are_certified(
    t: TrackerView,
    h: BlockHeader,
    cert: CommitView,
    next: Seq<Validator>,
)
    ensures
        followed(t, h, cert, next) matches Ok((after, power)) ==> {
            &&& after.height == t.height + 1
            &&& cert.height == after.height
            &&& cert.block_hash == h.block_hash
            &&& consensus::certified(t.validators, cert) == Ok::<u64, ConsensusError>(power)
            &&& validator::set_root(after.validators) == validator::set_root(t.validators)
        },
{
}

impl ValidatorTracker {
    /// A tracker at genesis.
    pub fn from_genesis(g: &Genesis) -> (r: ValidatorTracker)
        requires
            state::power_fits(g@),
        ensures
            r@ == genesis_tracker(g@),
    {
        ValidatorTracker { height: 0, validators: genesis_validators(g) }
    }

    /// The height that has been followed.
    pub fn height(&self) -> (r: u64)
        ensures
            r == self@.height,
    {
        self.height
    }

    /// The validators that certify the next height.
    pub fn validators(&self) -> (r: &ValidatorSet)
        ensures
            r@ == self@.validators,
    {
        &self.validators
    }

    /// Follows one certified header, and returns the power that signed it. A refused
    /// header changes nothing.
    pub fn follow_header(
        &mut self,
        h: &BlockHeader,
        cert: &Commit,
        next: &ValidatorSet,
    ) -> (r: Result<u64, LightError>)
        ensures
            match followed(old(self)@, *h, cert@, next@) {
                Ok((after, power)) => r == Ok::<u64, LightError>(power) && final(self)@ == after,
                Err(e) => r == Err::<u64, LightError>(e) && final(self)@ == old(self)@,
            },
    {
        if self.height == u64::MAX || h.height != self.height + 1 {
            return Err(LightError::WrongHeight { reached: self.height, got: h.height });
        }
        if cert.height != h.height || !same_bytes(&cert.block_hash, &h.block_hash) {
            return Err(LightError::CertificateMismatch);
        }
        let power: u64 = match cert.verify(&self.validators) {
            Ok(p) => p,
            Err(e) => {
                return Err(LightError::BadCertificate(e));
            },
        };
        let expected = self.validators.merkle_root();
        let found = next.merkle_root();
        if !same_bytes(&found, &expected) {
            return Err(LightError::ValidatorRootMismatch { expected, found });
        }
        self.height = h.height;
        self.validators = next.clone();
        Ok(power)
    }

    /// Checks that a validator belongs to the tracked set.
    pub fn verify_membership(&self, v: &Validator, path: &Proof) -> (r: Result<(), LightError>)
        ensures
            r == if merkle::climbed(merkle::leaf_digest(validator::validator_leaf(*v)), path@)
                == validator::set_root(self@.validators) {
                Ok::<(), LightError>(())
            } else {
                Err(LightError::MembershipProofInvalid { id: v.id })
            },
    {
        let leaf = v.merkle_leaf();
        let root = self.validators.merkle_root();
        if merkle::verify(&root, &leaf_hash(leaf.as_slice()), path) {
            Ok(())
        } else {
            Err(LightError::MembershipProofInvalid { id: v.id })
        }
    }
}

// --- proved entries -----------------------------------------------------------

/// What kind of entry a proof opens.
#[derive(Clone, Copy, Debug, PartialEq, Eq, Structural)]
pub enum ProofKind {
    Account,
    Reviewer,
    Validator,
    GraphNode,
}

/// One entry with its inclusion proof.
#[derive(Debug)]
pub enum ProofEntry {
    Account { id: u64, account: Account, path: Proof },
    Reviewer { id: u64, reputation: u32, path: Proof },
    Validator { id: u64, validator: Validator, path: Proof },
    GraphNode { node_id: u64, graph_node: GraphNode, path: Proof },
}

#[verifier::ext_equal]
pub enum EntryView {
    Account { id: u64, account: Account, path: Seq<Step> },
    Reviewer { id: u64, reputation: u32, path: Seq<Step> },
    Validator { id: u64, validator: Validator, path: Seq<Step> },
    GraphNode { node_id: u64, graph_node: GraphNode, path: Seq<Step> },
}

impl View for ProofEntry {
    type V = EntryView;

    open spec fn view(&self) -> EntryView {
        match self {
            ProofEntry::Account { id, account, path } => EntryView::Account {
                id: *id,
                account: *account,
                path: path@,
            },
            ProofEntry::Reviewer { id, reputation, path } => EntryView::Reviewer {
                id: *id,
                reputation: *reputation,
                path: path@,
            },
            ProofEntry::Validator { id, validator, path } => EntryView::Validator {
                id: *id,
                validator: *validator,
                path: path@,
            },
            ProofEntry::GraphNode { node_id, graph_node, path } => EntryView::GraphNode {
                node_id: *node_id,
                graph_node: *graph_node,
                path: path@,
            },
        }
    }
}

impl EntryView {
    /// The kind of entry.
    pub open spec fn kind(self) -> ProofKind {
        match self {
            EntryView::Account { .. } => ProofKind::Account,
            EntryView::Reviewer { .. } => ProofKind::Reviewer,
            EntryView::Validator { .. } => ProofKind::Validator,
            EntryView::GraphNode { .. } => ProofKind::GraphNode,
        }
    }

    /// The id of the entry.
    pub open spec fn id(self) -> u64 {
        match self {
            EntryView::Account { id, .. } => id,
            EntryView::Reviewer { id, .. } => id,
            EntryView::Validator { id, .. } => id,
            EntryView::GraphNode { node_id, .. } => node_id,
        }
    }

    /// The steps of the proof.
    pub open spec fn path(self) -> Seq<Step> {
        match self {
            EntryView::Account { path, .. } => path,
            EntryView::Reviewer { path, .. } => path,
            EntryView::Validator { path, .. } => path,
            EntryView::GraphNode { path, .. } => path,
        }
    }

    /// The leaf contents that the proof opens.
    pub open spec fn leaf(self) -> Seq<u8> {
        match self {
            EntryView::Account { id, account, .. } => roots::account_leaf(id, account),
            EntryView::Reviewer { id, reputation, .. } => roots::standing_leaf(id, reputation),
            EntryView::Validator { validator, .. } => validator::validator_leaf(validator),
            EntryView::GraphNode { graph_node, .. } => roots::graph_leaf(graph_node),
        }
    }

    /// Whether the proof leads from the entry to `root`.
    pub open spec fn opens(self, root: Digest) -> bool {
        merkle::climbed(merkle::leaf_digest(self.leaf()), self.path()) == root
    }
}

impl Clone for ProofEntry {
    fn clone(&self) -> (r: ProofEntry)
        ensures
            r@ == self@,
    {
        match self {
            ProofEntry::Account { id, account, path } => ProofEntry::Account {
                id: *id,
                account: *account,
                path: path.clone(),
            },
            ProofEntry::Reviewer { id, reputation, path } => ProofEntry::Reviewer {
                id: *id,
                reputation: *reputation,
                path: path.clone(),
            },
            ProofEntry::Validator { id, validator, path } => ProofEntry::Validator {
                id: *id,
                validator: *validator,
                path: path.clone(),
            },
            ProofEntry::GraphNode { node_id, graph_node, path } => ProofEntry::GraphNode {
                node_id: *node_id,
                graph_node: *graph_node,
                path: path.clone(),
            },
        }
    }
}

impl ProofEntry {
    /// The kind of entry.
    pub fn kind(&self) -> (r: ProofKind)
        ensures
            r == self@.kind(),
    {
        match self {
            ProofEntry::Account { .. } => ProofKind::Account,
            ProofEntry::Reviewer { .. } => ProofKind::Reviewer,
            ProofEntry::Validator { .. } => ProofKind::Validator,
            ProofEntry::GraphNode { .. } => ProofKind::GraphNode,
        }
    }

    /// The id of the entry.
    pub fn id(&self) -> (r: u64)
        ensures
            r == self@.id(),
    {
        match self {
            ProofEntry::Account { id, .. } => *id,
            ProofEntry::Reviewer { id, .. } => *id,
            ProofEntry::Validator { id, .. } => *id,
            ProofEntry::GraphNode { node_id, .. } => *node_id,
        }
    }

    /// The inclusion proof.
    pub fn path(&self) -> (r: &Proof)
        ensures
            r@ == self@.path(),
    {
        match self {
            ProofEntry::Account { path, .. } => path,
            ProofEntry::Reviewer { path, .. } => path,
            ProofEntry::Validator { path, .. } => path,
            ProofEntry::GraphNode { path, .. } => path,
        }
    }

    /// The leaf contents that the proof opens.
    pub fn leaf(&self) -> (r: Vec<u8>)
        ensures
            r@ == self@.leaf(),
    {
        match self {
            ProofEntry::Account { id, account, .. } => account.merkle_leaf(*id),
            ProofEntry::Reviewer { id, reputation, .. } => {
                Reviewer { id: *id, reputation: *reputation }.merkle_leaf()
            },
            ProofEntry::Validator { validator, .. } => validator.merkle_leaf(),
            ProofEntry::GraphNode { graph_node, .. } => graph_node.merkle_leaf(),
        }
    }
}

} // verus!
