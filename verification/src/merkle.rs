//! Binary Merkle trees over leaf hashes, with inclusion proofs.
//!
//! Leaves and inner nodes are hashed under different prefixes. Each level pairs its
//! neighbours from the left; a node left over at the end moves up unchanged.

use vstd::prelude::*;

use crate::bytes::{copy_vec, push_bytes, same_bytes};
use crate::hash;
use crate::hash::sha256;
use crate::Digest;

verus! {

/// The byte in front of a leaf's preimage.
pub const LEAF_PREFIX: u8 = 0;

/// The byte in front of an inner node's preimage.
pub const NODE_PREFIX: u8 = 1;

/// The hash of a leaf.
pub open spec fn leaf_digest(data: Seq<u8>) -> Digest {
    hash::hash_of(seq![LEAF_PREFIX] + data)
}

/// What is hashed for an inner node.
pub open spec fn node_preimage(left: Digest, right: Digest) -> Seq<u8> {
    seq![NODE_PREFIX] + left@ + right@
}

/// The hash of an inner node.
pub open spec fn node_digest(left: Digest, right: Digest) -> Digest {
    hash::hash_of(node_preimage(left, right))
}

/// The level above.
pub open spec fn parents(level: Seq<Digest>) -> Seq<Digest> {
    Seq::new(
        (level.len() + 1) / 2,
        |i: int|
            if 2 * i + 1 < level.len() {
                node_digest(level[2 * i], level[2 * i + 1])
            } else {
                level[2 * i]
            },
    )
}

/// The root above a level. An empty tree has the hash of nothing.
pub open spec fn root_of(level: Seq<Digest>) -> Digest
    decreases level.len(),
{
    if level.len() == 0 {
        hash::hash_of(Seq::empty())
    } else if level.len() == 1 {
        level[0]
    } else {
        root_of(parents(level))
    }
}

/// One step from a node to its parent: the sibling and its side.
#[derive(Clone, Copy, Debug, PartialEq, Eq)]
pub enum Step {
    /// The sibling stands to the left.
    Left(Digest),
    /// The sibling stands to the right.
    Right(Digest),
}

/// The steps from the node at `index` up to the root.
pub open spec fn path_of(level: Seq<Digest>, index: int) -> Seq<Step>
    decreases level.len(),
{
    if level.len() <= 1 {
        Seq::empty()
    } else {
        let above = path_of(parents(level), index / 2);
        if index % 2 == 1 {
            seq![Step::Left(level[index - 1])] + above
        } else if index + 1 < level.len() {
            seq![Step::Right(level[index + 1])] + above
        } else {
            above
        }
    }
}

/// The parent that a step leads to.
pub open spec fn stepped(node: Digest, step: Step) -> Digest {
    match step {
        Step::Left(sibling) => node_digest(sibling, node),
        Step::Right(sibling) => node_digest(node, sibling),
    }
}

/// Where the steps lead from a node.
pub open spec fn climbed(node: Digest, steps: Seq<Step>) -> Digest
    decreases steps.len(),
{
    if steps.len() == 0 {
        node
    } else {
        climbed(stepped(node, steps[0]), steps.skip(1))
    }
}

/// What is hashed in a step.
pub open spec fn step_preimage(node: Digest, step: Step) -> Seq<u8> {
    match step {
        Step::Left(sibling) => node_preimage(sibling, node),
        Step::Right(sibling) => node_preimage(node, sibling),
    }
}

/// Whether two different messages have the same hash.
pub open spec fn collide(a: Seq<u8>, b: Seq<u8>) -> bool {
    a != b && hash::hash_of(a) == hash::hash_of(b)
}

/// The path from any leaf leads to the root.
pub proof fn law_paths_lead_to_the_root(level: Seq<Digest>, index: int)
    requires
        0 <= index < level.len(),
    ensures
        climbed(level[index], path_of(level, index)) == root_of(level),
    decreases level.len(),
{
    if level.len() > 1 {
        let up = parents(level);
        let above = path_of(up, index / 2);
        law_paths_lead_to_the_root(up, index / 2);
        if index % 2 == 1 {
            assert((seq![Step::Left(level[index - 1])] + above).skip(1) =~= above);
        } else if index + 1 < level.len() {
            assert((seq![Step::Right(level[index + 1])] + above).skip(1) =~= above);
        }
    }
}

/// Whether two messages collide that are hashed in the same step on the ways from two
/// nodes.
pub open spec fn path_collides(a: Digest, b: Digest, steps: Seq<Step>) -> bool {
    exists|i: int|
        0 <= i < steps.len() && collide(
            step_preimage(climbed(a, steps.take(i)), #[trigger] steps[i]),
            step_preimage(climbed(b, steps.take(i)), steps[i]),
        )
}

/// Whether two leaf contents collide, or messages on the ways from them.
pub open spec fn opening_collides(a: Seq<u8>, b: Seq<u8>, steps: Seq<Step>) -> bool {
    ||| collide(seq![LEAF_PREFIX] + a, seq![LEAF_PREFIX] + b)
    ||| path_collides(leaf_digest(a), leaf_digest(b), steps)
}

/// Whether two messages collide that are hashed in the same place of two trees.
pub open spec fn tree_collides(a: Seq<Digest>, b: Seq<Digest>) -> bool
    decreases a.len(),
{
    if a.len() <= 1 {
        false
    } else {
        ||| exists|i: int|
            0 <= i && 2 * i + 1 < a.len() && #[trigger] pair_collides(a, b, i)
        ||| tree_collides(parents(a), parents(b))
    }
}

/// Whether the preimages of the parents at position `i` collide.
pub open spec fn pair_collides(a: Seq<Digest>, b: Seq<Digest>, i: int) -> bool {
    collide(node_preimage(a[2 * i], a[2 * i + 1]), node_preimage(b[2 * i], b[2 * i + 1]))
}

/// One path leads from two different nodes to one root only if messages that are
/// hashed on the way collide.
pub proof fn law_a_path_opens_one_node(a: Digest, b: Digest, steps: Seq<Step>)
    requires
        a != b,
        climbed(a, steps) == climbed(b, steps),
    ensures
        path_collides(a, b, steps),
    decreases steps.len(),
{
    if steps.len() > 0 {
        let c = stepped(a, steps[0]);
        let d = stepped(b, steps[0]);
        if c != d {
            let rest = steps.skip(1);
            law_a_path_opens_one_node(c, d, rest);
            let i = choose|i: int|
                0 <= i < rest.len() && collide(
                    step_preimage(climbed(c, rest.take(i)), #[trigger] rest[i]),
                    step_preimage(climbed(d, rest.take(i)), rest[i]),
                );
            let way = steps.take(i + 1);
            assert(way.skip(1) =~= rest.take(i));
            assert(climbed(a, way) == climbed(c, rest.take(i)));
            assert(climbed(b, way) == climbed(d, rest.take(i)));
            assert(steps[i + 1] == rest[i]);
        } else {
            let k = lemma_digests_differ(a, b);
            let x = step_preimage(a, steps[0]);
            let y = step_preimage(b, steps[0]);
            match steps[0] {
                Step::Left(_) => {
                    assert(x[33 + k] != y[33 + k]);
                },
                Step::Right(_) => {
                    assert(x[1 + k] != y[1 + k]);
                },
            }
            assert(climbed(a, steps.take(0)) == a);
            assert(climbed(b, steps.take(0)) == b);
            assert(collide(x, y));
        }
    }
}

/// One path opens one root to two different leaf contents only if messages that are
/// hashed on the way collide.
pub proof fn law_a_proof_opens_one_leaf(a: Seq<u8>, b: Seq<u8>, steps: Seq<Step>)
    requires
        a != b,
        climbed(leaf_digest(a), steps) == climbed(leaf_digest(b), steps),
    ensures
        opening_collides(a, b, steps),
{
    if leaf_digest(a) != leaf_digest(b) {
        law_a_path_opens_one_node(leaf_digest(a), leaf_digest(b), steps);
    } else {
        let x = seq![LEAF_PREFIX] + a;
        let y = seq![LEAF_PREFIX] + b;
        assert(x.skip(1) =~= a);
        assert(y.skip(1) =~= b);
        assert(collide(x, y));
    }
}

/// A root commits to its leaves: two lists of equally many leaves share a root only
/// if messages that are hashed in the two trees collide.
pub proof fn law_a_root_commits_to_its_leaves(a: Seq<Digest>, b: Seq<Digest>)
    requires
        a.len() == b.len(),
        a != b,
        root_of(a) == root_of(b),
    ensures
        tree_collides(a, b),
    decreases a.len(),
{
    if a.len() <= 1 {
        assert(a =~= b);
    } else if parents(a) != parents(b) {
        law_a_root_commits_to_its_leaves(parents(a), parents(b));
    } else {
        let i = lemma_lists_differ(a, b);
        let up = i / 2;
        assert(parents(a)[up] == parents(b)[up]);
        if 2 * up + 1 < a.len() {
            let x = node_preimage(a[2 * up], a[2 * up + 1]);
            let y = node_preimage(b[2 * up], b[2 * up + 1]);
            let k = lemma_digests_differ(a[i], b[i]);
            assert(x[1 + 32 * (i % 2) + k] == a[i]@[k]);
            assert(y[1 + 32 * (i % 2) + k] == b[i]@[k]);
            assert(pair_collides(a, b, up));
        }
    }
}

proof fn lemma_lists_differ(a: Seq<Digest>, b: Seq<Digest>) -> (i: int)
    requires
        a.len() == b.len(),
        a != b,
    ensures
        0 <= i < a.len(),
        a[i] != b[i],
{
    if forall|i: int| 0 <= i < a.len() ==> a[i] == b[i] {
        assert(a =~= b);
    }
    choose|i: int| 0 <= i < a.len() && a[i] != b[i]
}

proof fn lemma_digests_differ(a: Digest, b: Digest) -> (k: int)
    requires
        a != b,
    ensures
        0 <= k < 32,
        a@[k] != b@[k],
{
    if forall|k: int| 0 <= k < 32 ==> a@[k] == b@[k] {
        assert(a =~= b);
    }
    choose|k: int| 0 <= k < 32 && a@[k] != b@[k]
}

/// The hash of a leaf.
pub fn leaf_hash(data: &[u8]) -> (r: Digest)
    ensures
        r == leaf_digest(data@),
{
    let mut buf: Vec<u8> = Vec::new();
    buf.push(LEAF_PREFIX);
    push_bytes(&mut buf, data);
    assert(buf@ =~= seq![LEAF_PREFIX] + data@);
    sha256(buf.as_slice())
}

/// The hash of an inner node.
pub fn node_hash(left: &Digest, right: &Digest) -> (r: Digest)
    ensures
        r == node_digest(*left, *right),
{
    let mut buf: Vec<u8> = Vec::new();
    buf.push(NODE_PREFIX);
    push_bytes(&mut buf, left.as_slice());
    push_bytes(&mut buf, right.as_slice());
    assert(buf@ =~= node_preimage(*left, *right));
    sha256(buf.as_slice())
}

/// The level above.
fn next_level(level: &Vec<Digest>) -> (r: Vec<Digest>)
    ensures
        r@ == parents(level@),
{
    let mut r: Vec<Digest> = Vec::new();
    let mut i: usize = 0;
    let n: usize = level.len() / 2 + level.len() % 2;
    while i < n
        invariant
            i <= n,
            n == (level@.len() + 1) / 2,
            r@ == parents(level@).take(i as int),
        decreases n - i,
    {
        let ghost before = r@;
        if level.len() - 2 * i >= 2 {
            let h = node_hash(&level[2 * i], &level[2 * i + 1]);
            r.push(h);
        } else {
            r.push(level[2 * i]);
        }
        assert(r@ =~= before.push(parents(level@)[i as int]));
        assert(parents(level@).take(i + 1) =~= before.push(parents(level@)[i as int]));
        i += 1;
    }
    assert(parents(level@).take(n as int) =~= parents(level@));
    r
}

/// An inclusion proof: the steps from a leaf to the root.
#[derive(Debug)]
pub struct Proof {
    pub steps: Vec<Step>,
}

impl View for Proof {
    type V = Seq<Step>;

    open spec fn view(&self) -> Seq<Step> {
        self.steps@
    }
}

impl Clone for Proof {
    fn clone(&self) -> (r: Proof)
        ensures
            r@ == self@,
    {
        let steps = self.steps.clone();
        assert(steps@ =~= self.steps@);
        Proof { steps }
    }
}

/// A tree over leaf hashes.
pub struct MerkleTree {
    leaves: Vec<Digest>,
}

impl View for MerkleTree {
    type V = Seq<Digest>;

    closed spec fn view(&self) -> Seq<Digest> {
        self.leaves@
    }
}

impl MerkleTree {
    /// The tree over the given leaf hashes.
    pub fn from_leaf_hashes(leaves: Vec<Digest>) -> (r: MerkleTree)
        ensures
            r@ == leaves@,
    {
        MerkleTree { leaves }
    }

    /// The root.
    pub fn root(&self) -> (r: Digest)
        ensures
            r == root_of(self@),
    {
        if self.leaves.len() == 0 {
            let nothing: Vec<u8> = Vec::new();
            assert(nothing@ =~= Seq::<u8>::empty());
            return sha256(nothing.as_slice());
        }
        let mut level = copy_vec(&self.leaves);
        while level.len() > 1
            invariant
                level.len() >= 1,
                root_of(level@) == root_of(self@),
            decreases level.len(),
        {
            level = next_level(&level);
        }
        level[0]
    }

    /// The inclusion proof of the leaf at `index`, if there is one. It verifies
    /// against the root.
    pub fn proof_of(&self, index: usize) -> (r: Option<Proof>)
        ensures
            r is Some <==> index < self@.len(),
            r matches Some(p) ==> p@ == path_of(self@, index as int) && climbed(
                self@[index as int],
                p@,
            ) == root_of(self@),
    {
        if index >= self.leaves.len() {
            return None;
        }
        let mut level = copy_vec(&self.leaves);
        let mut at: usize = index;
        let mut steps: Vec<Step> = Vec::new();
        assert(steps@ + path_of(level@, at as int) =~= path_of(level@, at as int));
        while level.len() > 1
            invariant
                at < level.len(),
                steps@ + path_of(level@, at as int) == path_of(self@, index as int),
            decreases level.len(),
        {
            let ghost before = steps@;
            let ghost above = path_of(parents(level@), at as int / 2);
            if at % 2 == 1 {
                let sibling = Step::Left(level[at - 1]);
                steps.push(sibling);
                assert(before + (seq![sibling] + above) =~= steps@ + above);
            } else if level.len() - at >= 2 {
                let sibling = Step::Right(level[at + 1]);
                steps.push(sibling);
                assert(before + (seq![sibling] + above) =~= steps@ + above);
            }
            level = next_level(&level);
            at = at / 2;
        }
        assert(steps@ + path_of(level@, at as int) =~= steps@);
        proof {
            law_paths_lead_to_the_root(self@, index as int);
        }
        Some(Proof { steps })
    }
}

/// Whether `path` leads from `leaf` to `root`.
pub fn verify(root: &Digest, leaf: &Digest, path: &Proof) -> (r: bool)
    ensures
        r == (climbed(*leaf, path@) == *root),
{
    let mut at: Digest = *leaf;
    let mut i: usize = 0;
    assert(path@.skip(0) =~= path@);
    while i < path.steps.len()
        invariant
            i <= path.steps.len(),
            climbed(at, path@.skip(i as int)) == climbed(*leaf, path@),
        decreases path.steps.len() - i,
    {
        assert(path@.skip(i as int).skip(1) =~= path@.skip(i + 1));
        at = match &path.steps[i] {
            Step::Left(sibling) => node_hash(sibling, &at),
            Step::Right(sibling) => node_hash(&at, sibling),
        };
        i += 1;
    }
    same_bytes(&at, root)
}

} // verus!
