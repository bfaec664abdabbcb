//! A light peer: it follows certified headers and keeps proved entries, and never
//! reads a block's body.
//!
//! Headers carry no state root. The peer keeps the entries of a proof reply as they
//! come in: a validator among them can be checked against the tracked set, but nothing
//! that the peer follows vouches for an account, a reputation or a graph node. For those
//! it needs the root of the state from someone it trusts.

use std::collections::BTreeSet;

use vstd::prelude::*;

use crate::consensus;
use crate::gossip;
use crate::gossip::{GossipMsg, MsgView};
use crate::light;
use crate::light::{
    CertifiedHeader, CertifiedView, EntryView, LightError, ProofEntry, ProofKind, TrackerView,
    ValidatorTracker,
};
use crate::node;
use crate::node::{known_peers, no_message, one_message, Outbox};
use crate::ordered;
use crate::ordered::sorted_members;
use crate::parse;
use crate::seen::DigestSet;
use crate::state;
use crate::state::{Genesis, GenesisView};
use crate::validator;
use crate::validator::{Validator, ValidatorSet};
use crate::Digest;

verus! {

// --- cached entries -----------------------------------------------------------

/// Entries by their kind and id; of two with the same the later counts.
pub open spec fn by_key(items: Seq<EntryView>) -> Map<(ProofKind, u64), EntryView>
    decreases items.len(),
{
    if items.len() == 0 {
        Map::empty()
    } else {
        by_key(items.drop_last()).insert((items.last().kind(), items.last().id()), items.last())
    }
}

/// What the entries in a list hold.
spec fn items_view(items: Seq<ProofEntry>) -> Seq<EntryView> {
    items.map_values(|e: ProofEntry| e@)
}

/// Proved entries, kept by kind and id.
pub struct ProofCache {
    items: Vec<ProofEntry>,
}

impl View for ProofCache {
    type V = Map<(ProofKind, u64), EntryView>;

    closed spec fn view(&self) -> Map<(ProofKind, u64), EntryView> {
        by_key(items_view(self.items@))
    }
}

impl ProofCache {
    /// An empty cache.
    pub fn new() -> (r: ProofCache)
        ensures
            r@ == Map::<(ProofKind, u64), EntryView>::empty(),
    {
        ProofCache { items: Vec::new() }
    }

    /// Keeps an entry; one of the same kind and id gives way.
    pub fn insert(&mut self, e: ProofEntry)
        ensures
            final(self)@ == old(self)@.insert((e@.kind(), e@.id()), e@),
    {
        let ghost k = (e@.kind(), e@.id());
        self.remove(e.kind(), e.id());
        let ghost before = items_view(self.items@);
        let ghost ev = e@;
        self.items.push(e);
        assert(items_view(self.items@).drop_last() =~= before);
        assert(self@ =~= old(self)@.insert(k, ev));
    }

    /// Takes out the entry of the given kind and id.
    pub fn remove(&mut self, kind: ProofKind, id: u64) -> (r: Option<ProofEntry>)
        ensures
            parse::viewed_option(r) == if old(self)@.contains_key((kind, id)) {
                Some(old(self)@[(kind, id)])
            } else {
                None
            },
            final(self)@ == old(self)@.remove((kind, id)),
    {
        let ghost key = (kind, id);
        let ghost all = items_view(self.items@);
        let ghost orig = self.items@;
        let mut rest: Vec<ProofEntry> = Vec::new();
        std::mem::swap(&mut rest, &mut self.items);
        let mut found: Option<ProofEntry> = None;
        let ghost mut k: int = 0;
        proof {
            assert(all.take(0) =~= Seq::<EntryView>::empty());
            assert(items_view(self.items@) =~= Seq::<EntryView>::empty());
            assert(by_key(all.take(0)).remove(key) =~= by_key(all.take(0)));
        }
        while rest.len() > 0
            invariant
                all == items_view(orig),
                key == (kind, id),
                0 <= k <= all.len(),
                rest@ == orig.skip(k),
                self@ == by_key(all.take(k)).remove(key),
                parse::viewed_option(found) == if by_key(all.take(k)).contains_key(key) {
                    Some(by_key(all.take(k))[key])
                } else {
                    None
                },
            decreases rest.len(),
        {
            let e = rest.remove(0);
            let ghost before = items_view(self.items@);
            let ghost ev = e@;
            proof {
                assert(e == orig[k]);
                assert(rest@ =~= orig.skip(k + 1));
                assert(all.take(k + 1).drop_last() =~= all.take(k));
                assert(all.take(k + 1).last() == e@);
            }
            if e.kind() == kind && e.id() == id {
                found = Some(e);
                assert(by_key(all.take(k + 1)).remove(key) =~= by_key(all.take(k)).remove(key));
            } else {
                self.items.push(e);
                assert(items_view(self.items@).drop_last() =~= before);
                assert(by_key(all.take(k + 1)).remove(key) =~= by_key(all.take(k)).remove(
                    key,
                ).insert((ev.kind(), ev.id()), ev));
            }
            proof {
                k = k + 1;
            }
        }
        assert(all.take(k) =~= all);
        found
    }
}

// --- the node -----------------------------------------------------------------

/// A light peer.
pub struct LightGossipNode {
    pub id: u64,
    /// The followed headers: the one at position `i` is that of height `i + 1`.
    pub headers: Vec<CertifiedHeader>,
    /// The validator set that was handed over with each followed header.
    pub next_sets: Vec<ValidatorSet>,
    /// Hashes of the headers that have come in.
    pub seen: DigestSet,
    pub tracker: ValidatorTracker,
    pub peers: BTreeSet<u64>,
    /// Entries with their proofs that full peers have sent, unchecked.
    pub proofs: ProofCache,
}

#[verifier::ext_equal]
pub struct LightView {
    pub id: u64,
    pub headers: Seq<CertifiedView>,
    pub next_sets: Seq<Seq<Validator>>,
    pub seen: Set<Digest>,
    pub tracker: TrackerView,
    pub peers: Set<u64>,
    pub proofs: Map<(ProofKind, u64), EntryView>,
}

/// What a list of validator sets holds.
pub open spec fn sets_view(s: Seq<ValidatorSet>) -> Seq<Seq<Validator>> {
    s.map_values(|v: ValidatorSet| v@)
}

impl View for LightGossipNode {
    type V = LightView;

    open spec fn view(&self) -> LightView {
        LightView {
            id: self.id,
            headers: gossip::headers_view(self.headers@),
            next_sets: sets_view(self.next_sets@),
            seen: self.seen@,
            tracker: self.tracker@,
            peers: self.peers@,
            proofs: self.proofs@,
        }
    }
}

/// A light peer that holds nothing but its genesis.
pub open spec fn fresh_light(id: u64, g: GenesisView, peers: Seq<u64>) -> LightView {
    LightView {
        id,
        headers: Seq::empty(),
        next_sets: Seq::empty(),
        seen: Set::empty(),
        tracker: light::genesis_tracker(g),
        peers: node::others(id, peers),
        proofs: Map::empty(),
    }
}

/// A light peer after it was given a certified header with the validators that
/// certify the next one. A header that has come in before, or is not the next, is
/// ignored; its answer is then the height reached. The answer for a followed header
/// is the power that signed it. A refused header is not marked: it may come again,
/// with other validators.
pub open spec fn given_header(n: LightView, ch: CertifiedView, next: Seq<Validator>) -> (
    LightView,
    Result<u64, LightError>,
) {
    let h = ch.header.block_hash;
    if n.seen.contains(h) || ch.header.height != n.tracker.height + 1 {
        (n, Ok(n.tracker.height))
    } else {
        match light::followed(n.tracker, ch.header, ch.cert, next) {
            Err(e) => (n, Err(e)),
            Ok((tracker, power)) => (
                LightView {
                    tracker,
                    headers: n.headers.push(ch),
                    next_sets: n.next_sets.push(next),
                    seen: n.seen.insert(h),
                    ..n
                },
                Ok(power),
            ),
        }
    }
}

/// The hashes of headers.
pub open spec fn header_hashes(batch: Seq<CertifiedView>) -> Set<Digest> {
    batch.map_values(|c: CertifiedView| c.header.block_hash).to_set()
}

/// A cache with the entries of a proof reply added.
pub open spec fn cached(
    m: Map<(ProofKind, u64), EntryView>,
    items: Seq<Option<EntryView>>,
) -> Map<(ProofKind, u64), EntryView>
    decreases items.len(),
{
    if items.len() == 0 {
        m
    } else {
        let before = cached(m, items.drop_last());
        match items.last() {
            None => before,
            Some(e) => before.insert((e.kind(), e.id()), e),
        }
    }
}

/// What a light peer does with a message: it asks peers that are ahead for headers,
/// marks the headers that come in, keeps proved entries, and drops all else.
pub open spec fn light_reacted(n: LightView, from: u64, m: MsgView) -> (
    LightView,
    Seq<(u64, MsgView)>,
) {
    let known = LightView { peers: n.peers.insert(from), ..n };
    let height = n.tracker.height;
    match m {
        MsgView::Status { height: theirs } => if theirs > height {
            (known, seq![(from, MsgView::GetHeaders { from: (height + 1) as u64 })])
        } else {
            (known, Seq::empty())
        },
        MsgView::Headers(batch) => (
            LightView { seen: n.seen.union(header_hashes(batch)), ..known },
            if batch.len() > 0 {
                seq![(from, MsgView::Status { height })]
            } else {
                Seq::empty()
            },
        ),
        MsgView::Proof { items } => (
            LightView { proofs: cached(n.proofs, items), ..known },
            Seq::empty(),
        ),
        _ => (known, Seq::empty()),
    }
}

/// The validators that certify the header at position `i`: the first ones, or those
/// that were handed over with the header before it.
pub open spec fn certifiers(n: LightView, first: Seq<Validator>, i: int) -> Seq<Validator> {
    if i == 0 {
        first
    } else {
        n.next_sets[i - 1]
    }
}

/// Whether a light peer has followed one header for each height it has reached, each
/// certified for its own block by a quorum of the validators of its height, and all
/// validator sets have the root of the first.
pub open spec fn is_followed(n: LightView, first: Seq<Validator>) -> bool {
    &&& n.headers.len() == n.tracker.height
    &&& n.next_sets.len() == n.headers.len()
    &&& n.tracker.validators == certifiers(n, first, n.headers.len() as int)
    &&& validator::set_root(n.tracker.validators) == validator::set_root(first)
    &&& forall|i: int|
        0 <= i < n.headers.len() ==> {
            &&& (#[trigger] n.headers[i]).header.height == i + 1
            &&& n.headers[i].cert.height == i + 1
            &&& n.headers[i].cert.block_hash == n.headers[i].header.block_hash
            &&& consensus::certified(certifiers(n, first, i), n.headers[i].cert) is Ok
        }
}

/// A fresh light peer has followed nothing yet.
pub proof fn law_fresh_light_is_followed(id: u64, g: GenesisView, peers: Seq<u64>)
    ensures
        is_followed(fresh_light(id, g, peers), light::genesis_tracker(g).validators),
{
}

/// A refused header changes nothing.
pub proof fn law_refused_header_changes_nothing(
    n: LightView,
    ch: CertifiedView,
    next: Seq<Validator>,
)
    ensures
        given_header(n, ch, next).1 is Err ==> given_header(n, ch, next).0 == n,
{
}

/// A header that was refused with one validator set is judged anew with another: if
/// it is not refused again, the tracker has reached its height.
pub proof fn law_refused_header_may_come_again(
    n: LightView,
    ch: CertifiedView,
    bad: Seq<Validator>,
    good: Seq<Validator>,
)
    requires
        given_header(n, ch, bad).1 is Err,
    ensures
        ({
            let (after, answer) = given_header(given_header(n, ch, bad).0, ch, good);
            answer is Ok ==> after.tracker.height == ch.header.height && after.headers
                == n.headers.push(ch)
        }),
{
}

/// Whatever header a light peer is given, all it has followed stays certified.
pub proof fn law_given_header_stays_followed(
    n: LightView,
    first: Seq<Validator>,
    ch: CertifiedView,
    next: Seq<Validator>,
)
    requires
        is_followed(n, first),
    ensures
        is_followed(given_header(n, ch, next).0, first),
{
    let after = given_header(n, ch, next).0;
    assert forall|i: int| 0 <= i < after.headers.len() implies {
        &&& (#[trigger] after.headers[i]).header.height == i + 1
        &&& after.headers[i].cert.height == i + 1
        &&& after.headers[i].cert.block_hash == after.headers[i].header.block_hash
        &&& consensus::certified(certifiers(after, first, i), after.headers[i].cert) is Ok
    } by {
        assert(certifiers(after, first, i) == certifiers(n, first, i));
        if i < n.headers.len() {
            assert(after.headers[i] == n.headers[i]);
        }
    }
}

/// No message moves the tracker: only headers that are handed over with their
/// validators do.
pub proof fn law_messages_do_not_move_the_tracker(n: LightView, from: u64, m: MsgView)
    ensures
        light_reacted(n, from, m).0.tracker == n.tracker,
        light_reacted(n, from, m).0.headers == n.headers,
{
}

impl LightGossipNode {
    /// A light peer that holds nothing but its genesis and knows the given peers.
    pub fn new(id: u64, g: &Genesis, peers: &[u64]) -> (r: LightGossipNode)
        requires
            state::power_fits(g@),
        ensures
            r@ == fresh_light(id, g@, peers@),
    {
        let r = LightGossipNode {
            id,
            headers: Vec::new(),
            next_sets: Vec::new(),
            seen: DigestSet::new(),
            tracker: ValidatorTracker::from_genesis(g),
            peers: known_peers(id, peers),
            proofs: ProofCache::new(),
        };
        assert(r@ =~= fresh_light(id, g@, peers@));
        r
    }

    /// Takes out the cached entry of the given kind and id.
    pub fn take_proof(&mut self, kind: ProofKind, id: u64) -> (r: Option<ProofEntry>)
        ensures
            parse::viewed_option(r) == if old(self)@.proofs.contains_key((kind, id)) {
                Some(old(self)@.proofs[(kind, id)])
            } else {
                None
            },
            final(self)@ == (LightView {
                proofs: old(self)@.proofs.remove((kind, id)),
                ..old(self)@
            }),
    {
        self.proofs.remove(kind, id)
    }

    /// The tracker of the validator set.
    pub fn tracker(&self) -> (r: &ValidatorTracker)
        ensures
            *r == self.tracker,
            r@ == self@.tracker,
    {
        &self.tracker
    }

    /// The tracker of the validator set, to change in place.
    pub fn tracker_mut(&mut self) -> (r: &mut ValidatorTracker)
        ensures
            *r == old(self).tracker,
            *final(self) == (LightGossipNode { tracker: *final(r), ..*old(self) }),
    {
        &mut self.tracker
    }

    /// The followed headers, in height order.
    pub fn headers(&self) -> (r: &[CertifiedHeader])
        ensures
            gossip::headers_view(r@) == self@.headers,
    {
        self.headers.as_slice()
    }

    /// Follows a certified header with the validators that certify the next one. A
    /// wrong set is refused without ever seeing a body, and the header may come again
    /// with the right one. Headers that came in before or are not the next are
    /// ignored.
    pub fn apply_header(&mut self, header: CertifiedHeader, next_set: &ValidatorSet) -> (r: Result<
        u64,
        LightError,
    >)
        ensures
            final(self)@ == given_header(old(self)@, header@, next_set@).0,
            r == given_header(old(self)@, header@, next_set@).1,
    {
        let h = header.block_hash();
        if !self.seen.insert(h) {
            assert(old(self)@.seen.insert(h) =~= old(self)@.seen);
            return Ok(self.tracker.height());
        }
        if self.tracker.height() == u64::MAX || header.header.height != self.tracker.height() + 1 {
            self.seen.remove(&h);
            assert(old(self)@.seen.insert(h).remove(h) =~= old(self)@.seen);
            return Ok(self.tracker.height());
        }
        let power: u64 = match self.tracker.follow_header(&header.header, &header.cert, next_set) {
            Ok(p) => p,
            Err(e) => {
                self.seen.remove(&h);
                assert(old(self)@.seen.insert(h).remove(h) =~= old(self)@.seen);
                return Err(e);
            },
        };
        let ghost headers = gossip::headers_view(self.headers@);
        let ghost sets = sets_view(self.next_sets@);
        let ghost hv = header@;
        self.headers.push(header);
        let set = next_set.clone();
        self.next_sets.push(set);
        assert(gossip::headers_view(self.headers@) =~= headers.push(hv));
        assert(sets_view(self.next_sets@) =~= sets.push(next_set@));
        Ok(power)
    }

    /// Reacts to a message. A light peer asks for headers and keeps proved entries;
    /// it serves nothing and stores no bodies.
    pub fn on_message(&mut self, from: u64, m: GossipMsg) -> (r: Outbox)
        ensures
            final(self)@ == light_reacted(old(self)@, from, m@).0,
            node::outbox_view(r@) == light_reacted(old(self)@, from, m@).1,
    {
        self.peers.insert(from);
        match m {
            GossipMsg::Status { height } => {
                if height > self.tracker.height() {
                    one_message(from, GossipMsg::GetHeaders { from: self.tracker.height() + 1 })
                } else {
                    no_message()
                }
            },
            GossipMsg::GetHeaders { from: _ } => no_message(),
            GossipMsg::Headers(batch) => self.on_headers(from, batch),
            GossipMsg::Proof { items } => {
                self.keep_entries(items);
                no_message()
            },
            GossipMsg::GetProof { items: _ } => no_message(),
            GossipMsg::Blocks(_) => no_message(),
            GossipMsg::GetBlocks { from: _ } => no_message(),
            GossipMsg::Tx(_) => no_message(),
            GossipMsg::Evidence(_) => no_message(),
            GossipMsg::StakeOp(_) => no_message(),
        }
    }

    fn keep_entries(&mut self, items: Vec<Option<ProofEntry>>)
        ensures
            final(self)@ == (LightView {
                proofs: cached(old(self)@.proofs, gossip::entries_view(items@)),
                ..old(self)@
            }),
    {
        let ghost all = gossip::entries_view(items@);
        let mut rest = items;
        let ghost mut k: int = 0;
        assert(all.take(0) =~= Seq::<Option<EntryView>>::empty());
        while rest.len() > 0
            invariant
                all == gossip::entries_view(items@),
                0 <= k <= all.len(),
                rest@ == items@.skip(k),
                self@ == (LightView {
                    proofs: cached(old(self)@.proofs, all.take(k)),
                    ..old(self)@
                }),
            decreases rest.len(),
        {
            let x = rest.remove(0);
            proof {
                assert(x == items@[k]);
                assert(rest@ =~= items@.skip(k + 1));
                assert(all.take(k + 1).drop_last() =~= all.take(k));
                assert(all.take(k + 1).last() == parse::viewed_option(x));
            }
            if let Some(e) = x {
                self.proofs.insert(e);
            }
            proof {
                k = k + 1;
            }
        }
        assert(all.take(k) =~= all);
    }

    fn on_headers(&mut self, from: u64, batch: Vec<CertifiedHeader>) -> (r: Outbox)
        ensures
            final(self)@ == (LightView {
                seen: old(self)@.seen.union(header_hashes(gossip::headers_view(batch@))),
                ..old(self)@
            }),
            node::outbox_view(r@) == if batch@.len() > 0 {
                seq![(from, MsgView::Status { height: old(self)@.tracker.height })]
            } else {
                Seq::empty()
            },
    {
        let ghost all = gossip::headers_view(batch@);
        let mut i: usize = 0;
        proof {
            assert(header_hashes(all.take(0)) =~= Set::<Digest>::empty());
            assert(old(self)@.seen.union(Set::<Digest>::empty()) =~= old(self)@.seen);
        }
        while i < batch.len()
            invariant
                i <= batch.len(),
                all == gossip::headers_view(batch@),
                self@ == (LightView {
                    seen: old(self)@.seen.union(header_hashes(all.take(i as int))),
                    ..old(self)@
                }),
            decreases batch.len() - i,
        {
            proof {
                lemma_header_hashes_step(all, i as int);
            }
            let h = batch[i].block_hash();
            self.seen.insert(h);
            assert(self@.seen =~= old(self)@.seen.union(header_hashes(all.take(i + 1))));
            i += 1;
        }
        assert(all.take(i as int) =~= all);
        if batch.len() > 0 {
            one_message(from, GossipMsg::Status { height: self.tracker.height() })
        } else {
            no_message()
        }
    }

    /// Tells every peer which height has been reached.
    pub fn announce(&self) -> (r: Outbox)
        ensures
            node::outbox_view(r@) == node::to_each(
                self@.peers,
                MsgView::Status { height: self@.tracker.height },
            ),
    {
        let ids = sorted_members(&self.peers);
        let height: u64 = self.tracker.height();
        let ghost all = node::to_each(self@.peers, MsgView::Status { height });
        let mut out: Outbox = Vec::new();
        let mut i: usize = 0;
        while i < ids.len()
            invariant
                i <= ids.len(),
                ids@ == ordered::in_order(self@.peers),
                all == node::to_each(self@.peers, MsgView::Status { height }),
                node::outbox_view(out@) == all.take(i as int),
            decreases ids.len() - i,
        {
            let ghost before = node::outbox_view(out@);
            let m = GossipMsg::Status { height };
            out.push((ids[i], m));
            assert(node::outbox_view(out@) =~= before.push((ids@[i as int], m@)));
            assert(all.take(i + 1) =~= before.push(all[i as int]));
            i += 1;
        }
        assert(all.take(i as int) =~= all);
        out
    }
}

proof fn lemma_header_hashes_step(batch: Seq<CertifiedView>, i: int)
    requires
        0 <= i < batch.len(),
    ensures
        header_hashes(batch.take(i + 1)) == header_hashes(batch.take(i)).insert(
            batch[i].header.block_hash,
        ),
{
    let f = |c: CertifiedView| c.header.block_hash;
    let a = batch.take(i).map_values(f);
    let b = batch.take(i + 1).map_values(f);
    assert(b =~= a.push(batch[i].header.block_hash));
    assert forall|h: Digest| b.contains(h) <==> a.contains(h) || h
        == batch[i].header.block_hash by {
        if a.contains(h) {
            let k = choose|k: int| 0 <= k < a.len() && a[k] == h;
            assert(b[k] == h);
        }
        if b.contains(h) {
            let k = choose|k: int| 0 <= k < b.len() && b[k] == h;
            if k < a.len() {
                assert(a[k] == h);
            }
        }
        assert(b[i] == batch[i].header.block_hash);
    }
    assert(b.to_set() =~= a.to_set().insert(batch[i].header.block_hash));
}

} // verus!
