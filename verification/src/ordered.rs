//! Ordered walks over maps and sets keyed by 64-bit ids.

use std::collections::{BTreeMap, BTreeSet};

use vstd::prelude::*;
use vstd::std_specs::cmp::OrdSpec;
use vstd::std_specs::iter::IteratorSpec;

verus! {

/// Whether ids stand in strictly increasing order.
pub open spec fn increasing(s: Seq<u64>) -> bool {
    forall|i: int, j: int| 0 <= i < j < s.len() ==> s[i] < s[j]
}

/// Whether a sequence lists exactly the ids of a set, in increasing order.
pub open spec fn lists(s: Seq<u64>, ids: Set<u64>) -> bool {
    &&& increasing(s)
    &&& forall|k: u64| #[trigger] s.contains(k) <==> ids.contains(k)
}

/// The ids of a set in increasing order.
pub open spec fn in_order(ids: Set<u64>) -> Seq<u64> {
    choose|s: Seq<u64>| lists(s, ids)
}

/// There is only one way to list a set in increasing order.
pub proof fn lemma_listing_unique(s: Seq<u64>, t: Seq<u64>, ids: Set<u64>)
    requires
        lists(s, ids),
        lists(t, ids),
    ensures
        s == t,
    decreases s.len(),
{
    if s.len() == 0 {
        if t.len() > 0 {
            assert(t.contains(t[0]));
            assert(s.contains(t[0]));
        }
        assert(s =~= t);
    } else {
        assert(s.contains(s.last()));
        assert(t.contains(s.last()));
        assert(t.contains(t.last()));
        assert(s.contains(t.last()));
        assert(s.last() == t.last());
        let rest = ids.remove(s.last());
        lemma_listing_without_last(s, ids);
        lemma_listing_without_last(t, ids);
        lemma_listing_unique(s.drop_last(), t.drop_last(), rest);
        assert(s =~= s.drop_last().push(s.last()));
        assert(t =~= t.drop_last().push(t.last()));
    }
}

proof fn lemma_listing_without_last(s: Seq<u64>, ids: Set<u64>)
    requires
        lists(s, ids),
        s.len() > 0,
    ensures
        lists(s.drop_last(), ids.remove(s.last())),
{
    let r = s.drop_last();
    let rest = ids.remove(s.last());
    assert forall|k: u64| #[trigger] r.contains(k) <==> rest.contains(k) by {
        if r.contains(k) {
            let i = choose|i: int| 0 <= i < r.len() && r[i] == k;
            assert(s[i] == k);
            assert(s.contains(k));
        }
        if rest.contains(k) {
            assert(s.contains(k));
            let i = choose|i: int| 0 <= i < s.len() && s[i] == k;
            assert(r[i] == k);
        }
    }
}

/// A listing is the ordered listing.
pub proof fn lemma_in_order(s: Seq<u64>, ids: Set<u64>)
    requires
        lists(s, ids),
    ensures
        in_order(ids) == s,
{
    lemma_listing_unique(in_order(ids), s, ids);
}

/// A finite set of ids has an ordered listing.
pub proof fn lemma_has_listing(ids: Set<u64>)
    requires
        ids.finite(),
    ensures
        lists(in_order(ids), ids),
    decreases ids.len(),
{
    if ids.len() == 0 {
        assert(lists(Seq::<u64>::empty(), ids));
    } else {
        let top = lemma_greatest(ids);
        let rest = ids.remove(top);
        lemma_has_listing(rest);
        let s = in_order(rest);
        let t = s.push(top);
        assert forall|i: int, j: int| 0 <= i < j < t.len() implies t[i] < t[j] by {
            assert(s.contains(s[i]));
        }
        assert forall|k: u64| #[trigger] t.contains(k) <==> ids.contains(k) by {
            if t.contains(k) {
                let i = choose|i: int| 0 <= i < t.len() && t[i] == k;
                if i < s.len() {
                    assert(s.contains(s[i]));
                }
            }
            if ids.contains(k) {
                if k == top {
                    assert(t[s.len() as int] == k);
                } else {
                    assert(s.contains(k));
                    let i = choose|i: int| 0 <= i < s.len() && s[i] == k;
                    assert(t[i] == k);
                }
            }
        }
        assert(lists(t, ids));
    }
}

proof fn lemma_greatest(ids: Set<u64>) -> (top: u64)
    requires
        ids.finite(),
        ids.len() > 0,
    ensures
        ids.contains(top),
        forall|k: u64| ids.contains(k) ==> k <= top,
    decreases ids.len(),
{
    let k = ids.choose();
    let rest = ids.remove(k);
    if rest.len() == 0 {
        assert forall|j: u64| ids.contains(j) implies j <= k by {
            if j != k {
                assert(rest.contains(j));
            }
        }
        k
    } else {
        let top = lemma_greatest(rest);
        if top < k {
            assert forall|j: u64| ids.contains(j) implies j <= k by {
                if j != k {
                    assert(rest.contains(j));
                }
            }
            k
        } else {
            assert forall|j: u64| ids.contains(j) implies j <= top by {
                if j != k {
                    assert(rest.contains(j));
                }
            }
            top
        }
    }
}

/// What an increasing walk over references lists.
proof fn lemma_walk(refs: Seq<&u64>, ids: Set<u64>, r: Seq<u64>)
    requires
        vstd::std_specs::btree::increasing_seq(refs),
        refs.unref().to_set() == ids,
        refs.len() == r.len(),
        forall|j: int| 0 <= j < r.len() ==> r[j] == *refs[j],
    ensures
        lists(r, ids),
        in_order(ids) == r,
{
    broadcast use vstd::laws_cmp::group_laws_cmp;

    assert(refs.unref() =~= r);
    assert(vstd::laws_cmp::obeys_cmp::<u64>());
    assert(vstd::laws_cmp::obeys_cmp::<&u64>());
    assert forall|i: int, j: int| 0 <= i < j < r.len() implies r[i] < r[j] by {
        assert(OrdSpec::cmp_spec(&refs[i], &refs[j]) is Less);
    }
    lemma_in_order(r, ids);
}

/// The keys of a map in increasing order.
pub fn sorted_keys<V>(m: &BTreeMap<u64, V>) -> (r: Vec<u64>)
    ensures
        r@ == in_order(m@.dom()),
        lists(r@, m@.dom()),
        r@.len() == m@.dom().len(),
{
    let mut r: Vec<u64> = Vec::new();
    for k in it: m.keys()
        invariant
            r@.len() == it.index(),
            forall|j: int| 0 <= j < r@.len() ==> r@[j] == *it.seq()[j],
            it.seq() == m.keys().remaining(),
    {
        r.push(*k);
    }
    proof {
        lemma_walk(m.keys().remaining(), m@.dom(), r@);
    }
    r
}

/// The members of a set in increasing order.
pub fn sorted_members(s: &BTreeSet<u64>) -> (r: Vec<u64>)
    ensures
        r@ == in_order(s@),
        lists(r@, s@),
        r@.len() == s@.len(),
{
    let mut r: Vec<u64> = Vec::new();
    for k in it: s.iter()
        invariant
            r@.len() == it.index(),
            forall|j: int| 0 <= j < r@.len() ==> r@[j] == *it.seq()[j],
            it.seq() == s.iter().remaining(),
    {
        r.push(*k);
    }
    proof {
        lemma_walk(s.iter().remaining(), s@, r@);
    }
    r
}

} // verus!
