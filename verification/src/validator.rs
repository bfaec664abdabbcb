//! The validator set: who votes on blocks, with what power.

use vstd::prelude::*;

use crate::bytes;
use crate::bytes::copy_vec;
use crate::codec::Enc;
use crate::merkle;
use crate::merkle::{leaf_hash, MerkleTree, Proof};
use crate::parse;
use crate::{Digest, PubKey};

verus! {

/// One validator.
#[derive(Clone, Copy, Debug, PartialEq, Eq)]
pub struct Validator {
    pub id: u64,
    pub pubkey: PubKey,
    pub power: u64,
}

/// The leaf contents that commit to a validator.
pub open spec fn validator_leaf(v: Validator) -> Seq<u8> {
    bytes::be64(v.id) + v.pubkey@ + bytes::be64(v.power)
}

impl Validator {
    /// The leaf contents that commit to this validator.
    pub fn merkle_leaf(&self) -> (r: Vec<u8>)
        ensures
            r@ == validator_leaf(*self),
    {
        let mut e = Enc::new();
        e.u64(self.id);
        e.raw(self.pubkey.as_slice());
        e.u64(self.power);
        assert(e@ =~= validator_leaf(*self));
        e.0
    }
}

/// The summed voting power.
pub open spec fn power_sum(vs: Seq<Validator>) -> nat
    decreases vs.len(),
{
    if vs.len() == 0 {
        0
    } else {
        vs[0].power as nat + power_sum(vs.skip(1))
    }
}

/// Whether validators stand in increasing order of their ids.
pub open spec fn by_id(vs: Seq<Validator>) -> bool {
    forall|i: int, j: int| 0 <= i < j < vs.len() ==> vs[i].id < vs[j].id
}

/// `vs` with `v` put in its place; a validator with the same id gives way.
pub open spec fn placed(vs: Seq<Validator>, v: Validator) -> Seq<Validator>
    decreases vs.len(),
{
    if vs.len() == 0 {
        seq![v]
    } else if v.id < vs[0].id {
        seq![v] + vs
    } else if v.id == vs[0].id {
        seq![v] + vs.skip(1)
    } else {
        seq![vs[0]] + placed(vs.skip(1), v)
    }
}

/// A list of validators as a set, in order of id: of two with one id the later
/// counts.
pub open spec fn set_of(list: Seq<Validator>) -> Seq<Validator>
    decreases list.len(),
{
    if list.len() == 0 {
        Seq::empty()
    } else {
        placed(set_of(list.drop_last()), list.last())
    }
}

/// The position of the validator with the given id, or the number of validators.
pub open spec fn place(vs: Seq<Validator>, id: u64) -> int
    decreases vs.len(),
{
    if vs.len() == 0 || vs[0].id == id {
        0
    } else {
        1 + place(vs.skip(1), id)
    }
}

/// The validator with the given id.
pub open spec fn find(vs: Seq<Validator>, id: u64) -> Option<Validator> {
    if place(vs, id) < vs.len() {
        Some(vs[place(vs, id)])
    } else {
        None
    }
}

/// The path from the member with the given id to the root.
pub open spec fn member_path(vs: Seq<Validator>, id: u64) -> Option<Seq<merkle::Step>> {
    if place(vs, id) < vs.len() {
        Some(merkle::path_of(leaf_digests(vs), place(vs, id)))
    } else {
        None
    }
}

/// The leaf hashes of a set.
pub open spec fn leaf_digests(vs: Seq<Validator>) -> Seq<Digest> {
    vs.map_values(|v: Validator| merkle::leaf_digest(validator_leaf(v)))
}

/// The Merkle commitment to a set.
pub open spec fn set_root(vs: Seq<Validator>) -> Digest {
    merkle::root_of(leaf_digests(vs))
}

/// The found validator has that id, and where none is found no member has it.
pub proof fn lemma_place(vs: Seq<Validator>, id: u64)
    ensures
        0 <= place(vs, id) <= vs.len(),
        find(vs, id) matches Some(v) ==> v.id == id,
        forall|i: int| 0 <= i < place(vs, id) ==> (#[trigger] vs[i]).id != id,
    decreases vs.len(),
{
    if vs.len() > 0 && vs[0].id != id {
        lemma_place(vs.skip(1), id);
        assert forall|i: int| 0 <= i < place(vs, id) implies (#[trigger] vs[i]).id != id by {
            if i > 0 {
                assert(vs.skip(1)[i - 1] == vs[i]);
            }
        }
        if place(vs, id) < vs.len() {
            assert(vs.skip(1)[place(vs, id) - 1] == vs[place(vs, id)]);
        }
    }
}

/// A member of a set in id order is what its id finds.
pub proof fn lemma_find_member(vs: Seq<Validator>, i: int)
    requires
        by_id(vs),
        0 <= i < vs.len(),
    ensures
        place(vs, vs[i].id) == i,
        find(vs, vs[i].id) == Some(vs[i]),
{
    lemma_place(vs, vs[i].id);
    let k = place(vs, vs[i].id);
    if k < i {
        assert(vs[k].id < vs[i].id);
    }
}

/// A member's path leads from its leaf to the root of the set.
pub proof fn law_member_path_leads_to_the_root(vs: Seq<Validator>, id: u64)
    requires
        find(vs, id) is Some,
    ensures
        merkle::climbed(
            merkle::leaf_digest(validator_leaf(find(vs, id)->0)),
            member_path(vs, id)->0,
        ) == set_root(vs),
{
    lemma_place(vs, id);
    merkle::law_paths_lead_to_the_root(leaf_digests(vs), place(vs, id));
}

proof fn lemma_placed(vs: Seq<Validator>, v: Validator)
    requires
        by_id(vs),
    ensures
        by_id(placed(vs, v)),
        power_sum(placed(vs, v)) <= power_sum(vs) + v.power,
        forall|i: int|
            0 <= i < placed(vs, v).len() ==> (#[trigger] placed(vs, v)[i]).id >= v.id || (vs.len()
                > 0 && placed(vs, v)[i].id >= vs[0].id),
    decreases vs.len(),
{
    reveal_with_fuel(power_sum, 2);
    if vs.len() == 0 {
    } else if v.id < vs[0].id {
        assert((seq![v] + vs).skip(1) =~= vs);
    } else if v.id == vs[0].id {
        assert((seq![v] + vs.skip(1)).skip(1) =~= vs.skip(1));
    } else {
        let rest = placed(vs.skip(1), v);
        lemma_placed(vs.skip(1), v);
        let all = seq![vs[0]] + rest;
        assert(all.skip(1) =~= rest);
        assert forall|i: int, j: int| 0 <= i < j < all.len() implies all[i].id < all[j].id by {
            assert(all[j] == rest[j - 1]);
            if i > 0 {
                assert(all[i] == rest[i - 1]);
            }
        }
    }
}

proof fn lemma_placed_at(vs: Seq<Validator>, v: Validator, k: int)
    requires
        by_id(vs),
        0 <= k <= vs.len(),
        forall|i: int| 0 <= i < k ==> vs[i].id < v.id,
        k < vs.len() ==> v.id <= vs[k].id,
    ensures
        placed(vs, v) == if k < vs.len() && vs[k].id == v.id {
            vs.update(k, v)
        } else {
            vs.insert(k, v)
        },
    decreases k,
{
    if k == 0 {
        if vs.len() == 0 {
            assert(seq![v] =~= vs.insert(0, v));
        } else if v.id < vs[0].id {
            assert(seq![v] + vs =~= vs.insert(0, v));
        } else {
            assert(seq![v] + vs.skip(1) =~= vs.update(0, v));
        }
    } else {
        assert(vs[0].id < v.id);
        let rest = vs.skip(1);
        lemma_placed_at(rest, v, k - 1);
        if k < vs.len() && vs[k].id == v.id {
            assert(seq![vs[0]] + rest.update(k - 1, v) =~= vs.update(k, v));
        } else {
            assert(seq![vs[0]] + rest.insert(k - 1, v) =~= vs.insert(k, v));
        }
    }
}

proof fn lemma_power_push(vs: Seq<Validator>, v: Validator)
    ensures
        power_sum(vs.push(v)) == power_sum(vs) + v.power,
    decreases vs.len(),
{
    reveal_with_fuel(power_sum, 2);
    if vs.len() > 0 {
        lemma_power_push(vs.skip(1), v);
        assert(vs.push(v).skip(1) =~= vs.skip(1).push(v));
    } else {
        assert(vs.push(v).skip(1) =~= Seq::<Validator>::empty());
    }
}

/// Power grows with the list.
pub proof fn lemma_power_take(vs: Seq<Validator>, i: int)
    requires
        0 <= i < vs.len(),
    ensures
        power_sum(vs.take(i + 1)) == power_sum(vs.take(i)) + vs[i].power,
        power_sum(vs.take(i + 1)) <= power_sum(vs),
    decreases vs.len() - i,
{
    assert(vs.take(i + 1) =~= vs.take(i).push(vs[i]));
    lemma_power_push(vs.take(i), vs[i]);
    if i + 1 < vs.len() {
        lemma_power_take(vs, i + 1);
    } else {
        assert(vs.take(i + 1) =~= vs);
    }
}

/// A set is in id order and weighs no more than the list it was made of.
pub proof fn lemma_set_of(list: Seq<Validator>)
    ensures
        by_id(set_of(list)),
        power_sum(set_of(list)) <= power_sum(list),
    decreases list.len(),
{
    if list.len() > 0 {
        lemma_set_of(list.drop_last());
        lemma_placed(set_of(list.drop_last()), list.last());
        lemma_power_push(list.drop_last(), list.last());
        assert(list.drop_last().push(list.last()) =~= list);
    }
}

proof fn lemma_placed_members(vs: Seq<Validator>, v: Validator)
    requires
        by_id(vs),
    ensures
        placed(vs, v).contains(v),
        forall|w: Validator| #[trigger]
            vs.contains(w) && w.id != v.id ==> placed(vs, v).contains(w),
        forall|w: Validator| #[trigger]
            placed(vs, v).contains(w) ==> w == v || vs.contains(w) && w.id != v.id,
{
    let k = lemma_place_of(vs, v, 0);
    lemma_placed_at(vs, v, k);
    let after = placed(vs, v);
    assert(after[k] == v);
    assert forall|w: Validator| #[trigger] vs.contains(w) && w.id != v.id implies after.contains(
        w,
    ) by {
        let i = choose|i: int| 0 <= i < vs.len() && vs[i] == w;
        if k < vs.len() && vs[k].id == v.id {
            assert(after[i] == w);
        } else if i < k {
            assert(after[i] == w);
        } else {
            assert(after[i + 1] == w);
        }
    }
    assert forall|w: Validator| #[trigger] after.contains(w) implies w == v || vs.contains(w)
        && w.id != v.id by {
        let i = choose|i: int| 0 <= i < after.len() && after[i] == w;
        if i != k {
            let j = if i < k || k < vs.len() && vs[k].id == v.id {
                i
            } else {
                i - 1
            };
            assert(vs[j] == w);
        }
    }
}

proof fn lemma_place_of(vs: Seq<Validator>, v: Validator, from: int) -> (k: int)
    requires
        by_id(vs),
        0 <= from <= vs.len(),
        forall|i: int| 0 <= i < from ==> vs[i].id < v.id,
    ensures
        0 <= k <= vs.len(),
        forall|i: int| 0 <= i < k ==> vs[i].id < v.id,
        k < vs.len() ==> v.id <= vs[k].id,
    decreases vs.len() - from,
{
    if from == vs.len() || v.id <= vs[from].id {
        from
    } else {
        lemma_place_of(vs, v, from + 1)
    }
}

/// A set seats exactly whom the list names: of those with one id the last listed, and
/// nobody that is not listed.
pub proof fn law_the_last_listed_is_seated(list: Seq<Validator>, k: int)
    requires
        0 <= k < list.len(),
        forall|i: int| k < i < list.len() ==> (#[trigger] list[i]).id != list[k].id,
    ensures
        exists|j: int| 0 <= j < set_of(list).len() && #[trigger] set_of(list)[j] == list[k],
        forall|j: int|
            0 <= j < set_of(list).len() ==> exists|i: int|
                0 <= i < list.len() && #[trigger] list[i] == #[trigger] set_of(list)[j],
        forall|i: int, j: int|
            0 <= i < j < set_of(list).len() ==> set_of(list)[i].id < set_of(list)[j].id,
{
    lemma_seated(list, k);
    lemma_set_of(list);
    let j = choose|j: int| 0 <= j < set_of(list).len() && set_of(list)[j] == list[k];
    assert(set_of(list)[j] == list[k]);
    assert forall|j: int| 0 <= j < set_of(list).len() implies exists|i: int|
        0 <= i < list.len() && #[trigger] list[i] == #[trigger] set_of(list)[j] by {
        assert(set_of(list).contains(set_of(list)[j]));
        assert(list.contains(set_of(list)[j]));
        let i = choose|i: int| 0 <= i < list.len() && list[i] == set_of(list)[j];
        assert(list[i] == set_of(list)[j]);
    }
}

proof fn lemma_seated(list: Seq<Validator>, k: int)
    requires
        0 <= k < list.len(),
        forall|i: int| k < i < list.len() ==> (#[trigger] list[i]).id != list[k].id,
    ensures
        set_of(list).contains(list[k]),
        forall|w: Validator| #[trigger] set_of(list).contains(w) ==> list.contains(w),
    decreases list.len(),
{
    let before = list.drop_last();
    lemma_set_of(before);
    lemma_placed_members(set_of(before), list.last());
    assert(list[list.len() - 1] == list.last());
    lemma_only_listed(list);
    if k < list.len() - 1 {
        assert(before[k] == list[k]);
        assert forall|i: int| k < i < before.len() implies (#[trigger] before[i]).id
            != before[k].id by {
            assert(before[i] == list[i]);
        }
        lemma_seated(before, k);
        assert(list[list.len() - 1].id != list[k].id);
    }
}

proof fn lemma_only_listed(list: Seq<Validator>)
    ensures
        forall|w: Validator| #[trigger] set_of(list).contains(w) ==> list.contains(w),
    decreases list.len(),
{
    if list.len() > 0 {
        let before = list.drop_last();
        lemma_only_listed(before);
        lemma_set_of(before);
        lemma_placed_members(set_of(before), list.last());
        assert(list[list.len() - 1] == list.last());
        assert forall|w: Validator| #[trigger] set_of(list).contains(w) implies list.contains(
            w,
        ) by {
            if w != list.last() {
                assert(before.contains(w));
                let i = choose|i: int| 0 <= i < before.len() && before[i] == w;
                assert(list[i] == w);
            }
        }
    }
}

/// Validators in id order, whose summed power fits a 64-bit word.
pub struct ValidatorSet {
    validators: Vec<Validator>,
}

impl View for ValidatorSet {
    type V = Seq<Validator>;

    closed spec fn view(&self) -> Seq<Validator> {
        self.validators@
    }
}

impl ValidatorSet {
    /// What holds of every set.
    #[verifier::type_invariant]
    pub open spec fn wf(&self) -> bool {
        &&& by_id(self@)
        &&& power_sum(self@) <= u64::MAX
    }

    /// The set of the listed validators: of two with one id the later counts.
    pub fn new(list: Vec<Validator>) -> (r: ValidatorSet)
        requires
            power_sum(list@) <= u64::MAX,
        ensures
            r@ == set_of(list@),
    {
        let mut vs: Vec<Validator> = Vec::new();
        let mut i: usize = 0;
        assert(list@.take(0) =~= Seq::<Validator>::empty());
        while i < list.len()
            invariant
                i <= list.len(),
                vs@ == set_of(list@.take(i as int)),
            decreases list.len() - i,
        {
            let v = list[i];
            proof {
                lemma_set_of(list@.take(i as int));
                assert(list@.take(i + 1).drop_last() =~= list@.take(i as int));
            }
            let mut k: usize = 0;
            while k < vs.len() && vs[k].id < v.id
                invariant
                    k <= vs.len(),
                    by_id(vs@),
                    forall|j: int| 0 <= j < k ==> vs[j].id < v.id,
                decreases vs.len() - k,
            {
                k += 1;
            }
            proof {
                lemma_placed_at(vs@, v, k as int);
            }
            if k < vs.len() && vs[k].id == v.id {
                vs.set(k, v);
            } else {
                vs.insert(k, v);
            }
            i += 1;
        }
        proof {
            assert(list@.take(i as int) =~= list@);
            lemma_set_of(list@);
        }
        ValidatorSet { validators: vs }
    }

    /// The members, in id order.
    pub fn validators(&self) -> (r: &[Validator])
        ensures
            r@ == self@,
    {
        self.validators.as_slice()
    }

    /// The member with the given id.
    pub fn get(&self, id: u64) -> (r: Option<&Validator>)
        ensures
            (match r {
                Some(v) => Some(*v),
                None => None,
            }) == find(self@, id),
    {
        let i: usize = self.position(id);
        if i < self.validators.len() {
            Some(&self.validators[i])
        } else {
            None
        }
    }

    fn position(&self, id: u64) -> (r: usize)
        ensures
            r == place(self@, id),
    {
        let mut i: usize = 0;
        assert(self@.skip(0) =~= self@);
        while i < self.validators.len()
            invariant
                i <= self.validators.len(),
                i + place(self@.skip(i as int), id) == place(self@, id),
            decreases self.validators.len() - i,
        {
            assert(self@.skip(i as int).skip(1) =~= self@.skip(i + 1));
            if self.validators[i].id == id {
                return i;
            }
            i += 1;
        }
        i
    }

    /// The summed voting power.
    pub fn total_power(&self) -> (r: u64)
        ensures
            r == power_sum(self@),
    {
        proof {
            use_type_invariant(self);
        }
        let mut total: u64 = 0;
        let mut i: usize = 0;
        assert(self@.take(0) =~= Seq::<Validator>::empty());
        while i < self.validators.len()
            invariant
                i <= self.validators.len(),
                total == power_sum(self@.take(i as int)),
                power_sum(self@) <= u64::MAX,
            decreases self.validators.len() - i,
        {
            proof {
                lemma_power_take(self@, i as int);
            }
            total = total + self.validators[i].power;
            i += 1;
        }
        assert(self@.take(i as int) =~= self@);
        total
    }

    fn tree(&self) -> (r: MerkleTree)
        ensures
            r@ == leaf_digests(self@),
    {
        let mut leaves: Vec<Digest> = Vec::new();
        let mut i: usize = 0;
        while i < self.validators.len()
            invariant
                i <= self.validators.len(),
                leaves@ == leaf_digests(self@).take(i as int),
            decreases self.validators.len() - i,
        {
            let leaf = self.validators[i].merkle_leaf();
            leaves.push(leaf_hash(leaf.as_slice()));
            assert(leaf_digests(self@).take(i + 1) =~= leaf_digests(self@).take(i as int).push(
                leaf_digests(self@)[i as int],
            ));
            i += 1;
        }
        assert(leaf_digests(self@).take(i as int) =~= leaf_digests(self@));
        MerkleTree::from_leaf_hashes(leaves)
    }

    /// The Merkle commitment to the set.
    pub fn merkle_root(&self) -> (r: Digest)
        ensures
            r == set_root(self@),
    {
        self.tree().root()
    }

    /// A proof that the member with the given id belongs to the set; none for an id
    /// that is not a member's. It leads from the member's leaf to the root.
    pub fn proof_of(&self, id: u64) -> (r: Option<Proof>)
        ensures
            parse::viewed_option(r) == member_path(self@, id),
            r matches Some(p) ==> merkle::climbed(
                merkle::leaf_digest(validator_leaf(find(self@, id)->0)),
                p@,
            ) == set_root(self@),
    {
        let i: usize = self.position(id);
        if i < self.validators.len() {
            proof {
                law_member_path_leads_to_the_root(self@, id);
            }
            self.tree().proof_of(i)
        } else {
            None
        }
    }
}

impl Clone for ValidatorSet {
    fn clone(&self) -> (r: ValidatorSet)
        ensures
            r@ == self@,
    {
        proof {
            use_type_invariant(self);
        }
        ValidatorSet { validators: copy_vec(&self.validators) }
    }
}

} // verus!
