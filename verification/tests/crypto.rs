//! Hashing, signatures and Merkle trees.

use zhixing_node::crypto::verify;
use zhixing_node::merkle;
use zhixing_node::merkle::{leaf_hash, MerkleTree, Proof, Step};
use zhixing_node::{hex, sha256, Keypair, Validator, ValidatorSet};

fn unhex(s: &str) -> Vec<u8> {
    (0..s.len() / 2).map(|i| u8::from_str_radix(&s[2 * i..2 * i + 2], 16).unwrap()).collect()
}

#[test]
fn known_vectors() {
    assert_eq!(
        hex(&sha256(b"")),
        "e3b0c44298fc1c149afbf4c8996fb92427ae41e4649b934ca495991b7852b855"
    );
    assert_eq!(
        hex(&sha256(b"abc")),
        "ba7816bf8f01cfea414140de5dae2223b00361a396177a9cb410ff61f20015ad"
    );
    assert_eq!(
        hex(&sha256(b"abcdbcdecdefdefgefghfghighijhijkijkljklmklmnlmnomnopnopq")),
        "248d6a61d20638b8e5c026930c3e6039a33ce45964ff2167f6ecedd419db06c1"
    );
}

#[test]
fn padding_edges_of_the_hash() {
    // a length that leaves exactly the room for the padding, one that does not, and
    // a whole number of blocks
    assert_eq!(
        hex(&sha256(&[0x61; 55])),
        "9f4390f8d30c2dd92ec9f095b65e2b9ae9b0a925a5258e241c9f1e910f734318"
    );
    assert_eq!(
        hex(&sha256(&[0x61; 56])),
        "b35439a4ac6f0948b6d6f9e3c6af0f5f590ce20f1bde7090ef7970686ec6738a"
    );
    assert_eq!(
        hex(&sha256(&[0x61; 64])),
        "ffe054fe7ae0cb6dc65c3af9b61d5209f439851db43d0ba5997337df154668eb"
    );
}

#[test]
fn sign_and_verify_roundtrip() {
    let kp = Keypair::from_seed([1u8; 32]);
    let sig = kp.sign(b"hello");
    assert!(verify(&kp.public(), b"hello", &sig));
}

#[test]
fn tampered_message_fails() {
    let kp = Keypair::from_seed([1u8; 32]);
    let sig = kp.sign(b"hello");
    assert!(!verify(&kp.public(), b"hellp", &sig));
    let mut bent = sig;
    bent[0] ^= 1;
    assert!(!verify(&kp.public(), b"hello", &bent));
}

#[test]
fn wrong_key_fails() {
    let kp = Keypair::from_seed([1u8; 32]);
    let other = Keypair::from_seed([2u8; 32]);
    let sig = kp.sign(b"hello");
    assert!(!verify(&other.public(), b"hello", &sig));
    // bytes that are no point on the curve are no key
    let mut off = [0u8; 32];
    off[0] = 2;
    assert!(!verify(&off, b"hello", &sig));
}

#[test]
fn keys_and_signatures_have_their_known_bytes() {
    let mut seed = [0u8; 32];
    seed.copy_from_slice(&unhex(
        "9d61b19deffd5a60ba844af492ec2cc44449c5697b326919703bac031cae7f60",
    ));
    let kp = Keypair::from_seed(seed);
    assert_eq!(
        hex(&kp.public()),
        "d75a980182b10ab7d54bfed3c964073a0ee172f3daa62325af021a68f707511a"
    );
    assert_eq!(
        hex(&kp.sign(b"")),
        "e5564300c360ac729086e2cc806e828a84877f1eb8e5d974d873e065224901555fb8821590a33bacc61e39701cf9b46bd25bf5f0595bbe24655141438e7a100b"
    );
}

#[test]
fn every_leaf_of_every_small_tree_opens_the_root() {
    for n in 1..9usize {
        let leaves: Vec<[u8; 32]> = (0..n).map(|i| leaf_hash(&[i as u8])).collect();
        let tree = MerkleTree::from_leaf_hashes(leaves.clone());
        let root = tree.root();
        for i in 0..n {
            let path = tree.proof_of(i).unwrap();
            assert!(merkle::verify(&root, &leaves[i], &path));
            assert!(!merkle::verify(&root, &leaf_hash(&[200]), &path));
        }
        assert!(tree.proof_of(n).is_none());
    }
}

#[test]
fn a_tree_of_two_is_the_hash_of_its_leaves() {
    let a = leaf_hash(b"a");
    let b = leaf_hash(b"b");
    let root = MerkleTree::from_leaf_hashes(vec![a, b]).root();
    assert_eq!(root, merkle::node_hash(&a, &b));
    assert!(merkle::verify(&root, &a, &Proof { steps: vec![Step::Right(b)] }));
    assert!(merkle::verify(&root, &b, &Proof { steps: vec![Step::Left(a)] }));
    assert!(!merkle::verify(&root, &b, &Proof { steps: vec![Step::Right(a)] }));
    assert!(!merkle::verify(&root, &a, &Proof { steps: vec![] }));
}

#[test]
fn a_validator_set_is_ordered_by_id() {
    let v = |id: u64, power: u64| Validator { id, pubkey: [id as u8; 32], power };
    let set = ValidatorSet::new(vec![v(3, 1), v(1, 5), v(2, 7)]);
    let ids: Vec<u64> = set.validators().iter().map(|x| x.id).collect();
    assert_eq!(ids, vec![1, 2, 3]);
    assert_eq!(set.total_power(), 13);
    assert_eq!(set.get(2).map(|x| x.power), Some(7));
    assert!(set.get(4).is_none());
    let path = set.proof_of(2).unwrap();
    let leaf = leaf_hash(&v(2, 7).merkle_leaf());
    assert!(merkle::verify(&set.merkle_root(), &leaf, &path));
    assert!(set.proof_of(4).is_none());
    assert_eq!(
        set.merkle_root(),
        ValidatorSet::new(vec![v(1, 5), v(2, 7), v(3, 1)]).merkle_root()
    );
}
