//! Sets of digests: what has passed through a node already.

use vstd::prelude::*;

use crate::bytes::same_bytes;
use crate::Digest;

verus! {

/// A set of digests.
pub struct DigestSet {
    items: Vec<Digest>,
}

impl View for DigestSet {
    type V = Set<Digest>;

    closed spec fn view(&self) -> Set<Digest> {
        self.items@.to_set()
    }
}

impl DigestSet {
    /// The empty set.
    pub fn new() -> (r: DigestSet)
        ensures
            r@ == Set::<Digest>::empty(),
    {
        let r = DigestSet { items: Vec::new() };
        assert(r@ =~= Set::<Digest>::empty());
        r
    }

    /// Whether a digest is in the set.
    pub fn contains(&self, d: &Digest) -> (r: bool)
        ensures
            r == self@.contains(*d),
    {
        let mut i: usize = 0;
        while i < self.items.len()
            invariant
                i <= self.items.len(),
                forall|j: int| 0 <= j < i ==> self.items@[j] != *d,
            decreases self.items.len() - i,
        {
            if same_bytes(&self.items[i], d) {
                assert(self.items@.contains(*d));
                return true;
            }
            i += 1;
        }
        false
    }

    /// Adds a digest; whether it was new.
    pub fn insert(&mut self, d: Digest) -> (r: bool)
        ensures
            r == !old(self)@.contains(d),
            final(self)@ == old(self)@.insert(d),
    {
        if self.contains(&d) {
            assert(self@ =~= self@.insert(d));
            return false;
        }
        let ghost before = self.items@;
        self.items.push(d);
        assert(self@ =~= old(self)@.insert(d)) by {
            assert forall|x: Digest| self@.contains(x) <==> old(self)@.insert(d).contains(x) by {
                if before.contains(x) {
                    let i = choose|i: int| 0 <= i < before.len() && before[i] == x;
                    assert(self.items@[i] == x);
                }
                if self.items@.contains(x) {
                    let i = choose|i: int| 0 <= i < self.items@.len() && self.items@[i] == x;
                    if i < before.len() {
                        assert(before[i] == x);
                    }
                }
                assert(self.items@[before.len() as int] == d);
            }
        }
        true
    }

    /// Takes a digest out.
    pub fn remove(&mut self, d: &Digest)
        ensures
            final(self)@ == old(self)@.remove(*d),
    {
        let mut rest: Vec<Digest> = Vec::new();
        let mut i: usize = 0;
        while i < self.items.len()
            invariant
                i <= self.items.len(),
                self.items@ == old(self).items@,
                forall|x: Digest| #[trigger]
                    rest@.contains(x) <==> x != *d && self.items@.take(i as int).contains(x),
            decreases self.items.len() - i,
        {
            let ghost before = rest@;
            let x = self.items[i];
            if !same_bytes(&x, d) {
                rest.push(x);
            }
            assert forall|y: Digest| #[trigger]
                rest@.contains(y) <==> y != *d && self.items@.take(i + 1).contains(y) by {
                let t0 = self.items@.take(i as int);
                let t1 = self.items@.take(i + 1);
                assert(before.contains(y) <==> y != *d && t0.contains(y));
                if before.contains(y) {
                    let k = choose|k: int| 0 <= k < before.len() && before[k] == y;
                    assert(rest@[k] == y);
                }
                if rest@.contains(y) {
                    let k = choose|k: int| 0 <= k < rest@.len() && rest@[k] == y;
                    if k < before.len() {
                        assert(before[k] == y);
                    }
                }
                if t0.contains(y) {
                    let k = choose|k: int| 0 <= k < t0.len() && t0[k] == y;
                    assert(t1[k] == y);
                }
                if t1.contains(y) {
                    let k = choose|k: int| 0 <= k < t1.len() && t1[k] == y;
                    if k < t0.len() {
                        assert(t0[k] == y);
                    }
                }
                assert(t1[i as int] == x);
                if rest@.len() > before.len() {
                    assert(rest@[before.len() as int] == x);
                }
            }
            i += 1;
        }
        assert(self.items@.take(i as int) =~= self.items@);
        self.items = rest;
        assert(self@ =~= old(self)@.remove(*d));
    }
}

} // verus!
