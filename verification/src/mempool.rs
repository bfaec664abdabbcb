//! Pending submissions and the block builder.
//!
//! The pool holds each submission once, in the order of the content hashes, so
//! every builder with the same pool and the same chain lays out the same block.

use vstd::prelude::*;

use crate::bytes::same_bytes;
use crate::chain;
use crate::chain::{Chain, ChainView};
use crate::graph;
use crate::graph::{Assessment, Judge};
use crate::parse;
use crate::state;
use crate::state::{ChainError, StateView};
use crate::tx;
use crate::tx::{Block, BlockView, SubmissionTx, TxView};
use crate::Digest;

verus! {

// --- the order of digests -----------------------------------------------------

/// Bytes read as one big-endian number.
pub open spec fn number(s: Seq<u8>) -> nat
    decreases s.len(),
{
    if s.len() == 0 {
        0
    } else {
        number(s.drop_last()) * 256 + s.last() as nat
    }
}

/// Where a digest stands among all digests.
pub open spec fn order(d: Digest) -> nat {
    number(d@)
}

proof fn lemma_first_difference(a: Seq<u8>, b: Seq<u8>, k: int)
    requires
        a.len() == b.len(),
        0 <= k < a.len(),
        forall|i: int| 0 <= i < k ==> a[i] == b[i],
        a[k] < b[k],
    ensures
        number(a) < number(b),
    decreases a.len(),
{
    if k == a.len() - 1 {
        assert(a.drop_last() =~= b.drop_last());
    } else {
        lemma_first_difference(a.drop_last(), b.drop_last(), k);
    }
}

proof fn lemma_number_tells_apart(a: Seq<u8>, b: Seq<u8>)
    requires
        a.len() == b.len(),
        number(a) == number(b),
    ensures
        a == b,
    decreases a.len(),
{
    if a.len() > 0 {
        lemma_number_tells_apart(a.drop_last(), b.drop_last());
        assert(a =~= a.drop_last().push(a.last()));
        assert(b =~= b.drop_last().push(b.last()));
    } else {
        assert(a =~= b);
    }
}

/// No two digests stand in the same place.
pub proof fn lemma_order_tells_apart(a: Digest, b: Digest)
    requires
        order(a) == order(b),
    ensures
        a == b,
{
    lemma_number_tells_apart(a@, b@);
    assert(a =~= b);
}

/// Whether `a` stands before `b`.
fn stands_before(a: &Digest, b: &Digest) -> (r: bool)
    ensures
        r == (order(*a) < order(*b)),
        order(*a) == order(*b) ==> *a == *b,
{
    let mut i: usize = 0;
    while i < 32
        invariant
            i <= 32,
            forall|j: int| 0 <= j < i ==> a@[j] == b@[j],
        decreases 32 - i,
    {
        if a[i] < b[i] {
            proof {
                lemma_first_difference(a@, b@, i as int);
            }
            return true;
        }
        if b[i] < a[i] {
            proof {
                lemma_first_difference(b@, a@, i as int);
            }
            return false;
        }
        i += 1;
    }
    assert(a@ =~= b@);
    assert(*a =~= *b);
    false
}

// --- what a pool holds --------------------------------------------------------

#[verifier::ext_equal]
pub struct PoolView {
    pub max_txs: usize,
    pub txs: Seq<TxView>,
}

/// Whether submissions stand in strictly increasing order of their hashes.
pub open spec fn by_hash(txs: Seq<TxView>) -> bool {
    forall|i: int, j: int|
        0 <= i < j < txs.len() ==> order(tx::tx_hash(#[trigger] txs[i])) < order(
            tx::tx_hash(#[trigger] txs[j]),
        )
}

/// Whether one of the submissions has the given hash.
pub open spec fn includes(txs: Seq<TxView>, h: Digest) -> bool {
    exists|i: int| 0 <= i < txs.len() && tx::tx_hash(#[trigger] txs[i]) == h
}

/// A pool with one more submission in its place; one that is there already stays.
pub open spec fn added(txs: Seq<TxView>, t: TxView) -> Seq<TxView>
    decreases txs.len(),
{
    if txs.len() == 0 {
        seq![t]
    } else if order(tx::tx_hash(t)) < order(tx::tx_hash(txs[0])) {
        seq![t] + txs
    } else if order(tx::tx_hash(t)) == order(tx::tx_hash(txs[0])) {
        txs
    } else {
        seq![txs[0]] + added(txs.skip(1), t)
    }
}

/// A pool without the submissions that a block includes.
pub open spec fn without(txs: Seq<TxView>, included: Seq<TxView>) -> Seq<TxView>
    decreases txs.len(),
{
    if txs.len() == 0 {
        Seq::empty()
    } else if includes(included, tx::tx_hash(txs[0])) {
        without(txs.skip(1), included)
    } else {
        seq![txs[0]] + without(txs.skip(1), included)
    }
}

/// The submissions that a builder takes: in pool order, each that still applies
/// after those before it, up to `max` of them.
pub open spec fn selected(judge: Judge, st: StateView, txs: Seq<TxView>, max: nat) -> Seq<TxView>
    decreases txs.len(),
{
    if txs.len() == 0 || max == 0 {
        Seq::empty()
    } else {
        match state::applied_tx(judge, st, txs[0]) {
            Ok((after, _)) => seq![txs[0]] + selected(
                judge,
                after,
                txs.skip(1),
                (max - 1) as nat,
            ),
            Err(_) => selected(judge, st, txs.skip(1), max),
        }
    }
}

/// The next block that a pool yields on top of a chain, if any submission applies.
pub open spec fn built(judge: Judge, pool: PoolView, c: ChainView, timestamp_days: u32) -> Option<
    BlockView,
> {
    let txs = selected(
        judge,
        StateView { now_days: timestamp_days, ..c.state },
        pool.txs,
        pool.max_txs as nat,
    );
    if c.state.height == u64::MAX || txs.len() == 0 {
        None
    } else {
        Some(
            BlockView {
                height: (c.state.height + 1) as u64,
                prev_hash: c.head,
                timestamp_days,
                txs,
            },
        )
    }
}

// --- laws ---------------------------------------------------------------------

/// Adding keeps the order and holds every submission once.
pub proof fn law_added_keeps_order(txs: Seq<TxView>, t: TxView)
    requires
        by_hash(txs),
    ensures
        by_hash(added(txs, t)),
        forall|i: int|
            0 <= i < added(txs, t).len() ==> {
                ||| #[trigger] added(txs, t)[i] == t
                ||| txs.contains(added(txs, t)[i])
            },
    decreases txs.len(),
{
    if txs.len() > 0 {
        if order(tx::tx_hash(t)) > order(tx::tx_hash(txs[0])) {
            let tail = txs.skip(1);
            let rest = added(tail, t);
            law_added_keeps_order(tail, t);
            let all = seq![txs[0]] + rest;
            assert forall|i: int| 0 <= i < rest.len() implies order(tx::tx_hash(txs[0])) < order(
                tx::tx_hash(#[trigger] rest[i]),
            ) by {
                if rest[i] != t {
                    let k = choose|k: int| 0 <= k < tail.len() && tail[k] == rest[i];
                    assert(txs[k + 1] == rest[i]);
                }
            }
            assert forall|i: int| 0 <= i < all.len() implies {
                ||| #[trigger] all[i] == t
                ||| txs.contains(all[i])
            } by {
                if i == 0 {
                    assert(txs[0] == all[0]);
                } else {
                    assert(all[i] == rest[i - 1]);
                    if rest[i - 1] != t {
                        let k = choose|k: int| 0 <= k < tail.len() && tail[k] == rest[i - 1];
                        assert(txs[k + 1] == all[i]);
                    }
                }
            }
        } else {
            assert forall|i: int| 0 <= i < added(txs, t).len() implies {
                ||| #[trigger] added(txs, t)[i] == t
                ||| txs.contains(added(txs, t)[i])
            } by {
                if added(txs, t) == txs {
                    assert(txs[i] == added(txs, t)[i]);
                } else if i > 0 {
                    assert(txs[i - 1] == added(txs, t)[i]);
                }
            }
        }
    }
}

/// An added submission is in the pool, and those that were there stay.
pub proof fn law_added_is_included(txs: Seq<TxView>, t: TxView, h: Digest)
    requires
        h == tx::tx_hash(t) || includes(txs, h),
    ensures
        includes(added(txs, t), h),
    decreases txs.len(),
{
    let all = added(txs, t);
    if txs.len() == 0 {
        assert(all[0] == t);
    } else if order(tx::tx_hash(t)) < order(tx::tx_hash(txs[0])) {
        assert(all[0] == t);
        if includes(txs, h) {
            let i = choose|i: int| 0 <= i < txs.len() && tx::tx_hash(#[trigger] txs[i]) == h;
            assert(all[i + 1] == txs[i]);
        }
    } else if order(tx::tx_hash(t)) == order(tx::tx_hash(txs[0])) {
        lemma_order_tells_apart(tx::tx_hash(txs[0]), tx::tx_hash(t));
    } else {
        let tail = txs.skip(1);
        if tx::tx_hash(txs[0]) == h {
            assert(all[0] == txs[0]);
        } else {
            if includes(txs, h) {
                let i = choose|i: int| 0 <= i < txs.len() && tx::tx_hash(#[trigger] txs[i]) == h;
                assert(tail[i - 1] == txs[i]);
            }
            law_added_is_included(tail, t, h);
            let i = choose|i: int|
                0 <= i < added(tail, t).len() && tx::tx_hash(#[trigger] added(tail, t)[i]) == h;
            assert(all[i + 1] == added(tail, t)[i]);
        }
    }
}

/// The order of arrival does not matter: the same submissions make the same pool.
/// Submissions with one hash must be one, since of two the first stays.
pub proof fn law_arrival_order_does_not_matter(txs: Seq<TxView>, a: TxView, b: TxView)
    requires
        tx::tx_hash(a) == tx::tx_hash(b) ==> a == b,
    ensures
        added(added(txs, a), b) == added(added(txs, b), a),
    decreases txs.len(),
{
    let (ha, hb) = (order(tx::tx_hash(a)), order(tx::tx_hash(b)));
    if ha == hb {
        lemma_order_tells_apart(tx::tx_hash(a), tx::tx_hash(b));
    } else if txs.len() == 0 {
        let (one, other) = (seq![a], seq![b]);
        assert(one.skip(1) =~= txs);
        assert(other.skip(1) =~= txs);
        assert(added(one.skip(1), b) =~= other);
        assert(added(other.skip(1), a) =~= one);
        assert(added(one, b) =~= added(other, a));
    } else {
        let head = seq![txs[0]];
        let tail = txs.skip(1);
        law_arrival_order_does_not_matter(tail, a, b);
        assert((seq![a] + txs).skip(1) =~= txs);
        assert((seq![b] + txs).skip(1) =~= txs);
        assert((head + added(tail, a)).skip(1) =~= added(tail, a));
        assert((head + added(tail, b)).skip(1) =~= added(tail, b));
    }
}

/// Exactly the submissions that a block includes leave the pool.
pub proof fn law_without_drops_the_included(txs: Seq<TxView>, included: Seq<TxView>, h: Digest)
    ensures
        includes(without(txs, included), h) <==> includes(txs, h) && !includes(included, h),
    decreases txs.len(),
{
    let rest = without(txs, included);
    if txs.len() > 0 {
        let tail = txs.skip(1);
        law_without_drops_the_included(tail, included, h);
        if includes(txs, h) {
            let i = choose|i: int| 0 <= i < txs.len() && tx::tx_hash(#[trigger] txs[i]) == h;
            if i > 0 {
                assert(tail[i - 1] == txs[i]);
            }
        }
        if includes(tail, h) {
            let i = choose|i: int| 0 <= i < tail.len() && tx::tx_hash(#[trigger] tail[i]) == h;
            assert(txs[i + 1] == tail[i]);
        }
        if !includes(included, tx::tx_hash(txs[0])) {
            let kept = without(tail, included);
            assert(rest[0] == txs[0]);
            if includes(kept, h) {
                let i = choose|i: int| 0 <= i < kept.len() && tx::tx_hash(#[trigger] kept[i]) == h;
                assert(rest[i + 1] == kept[i]);
            }
            if includes(rest, h) {
                let i = choose|i: int| 0 <= i < rest.len() && tx::tx_hash(#[trigger] rest[i]) == h;
                if i > 0 {
                    assert(kept[i - 1] == rest[i]);
                } else {
                    assert(tx::tx_hash(txs[0]) == h);
                }
            }
        }
    }
}

proof fn lemma_added_at(txs: Seq<TxView>, t: TxView, k: int)
    requires
        0 <= k <= txs.len(),
        forall|i: int|
            0 <= i < k ==> order(tx::tx_hash(#[trigger] txs[i])) < order(tx::tx_hash(t)),
        k < txs.len() ==> order(tx::tx_hash(t)) <= order(tx::tx_hash(txs[k])),
    ensures
        added(txs, t) == if k < txs.len() && order(tx::tx_hash(t)) == order(tx::tx_hash(txs[k])) {
            txs
        } else {
            txs.insert(k, t)
        },
    decreases k,
{
    if k == 0 {
        if txs.len() == 0 {
            assert(seq![t] =~= txs.insert(0, t));
        } else {
            assert(seq![t] + txs =~= txs.insert(0, t));
        }
    } else {
        assert(order(tx::tx_hash(txs[0])) < order(tx::tx_hash(t)));
        let tail = txs.skip(1);
        assert forall|i: int| 0 <= i < k - 1 implies order(tx::tx_hash(#[trigger] tail[i]))
            < order(tx::tx_hash(t)) by {
            assert(tail[i] == txs[i + 1]);
        }
        lemma_added_at(tail, t, k - 1);
        if k < txs.len() && order(tx::tx_hash(t)) == order(tx::tx_hash(txs[k])) {
            assert(seq![txs[0]] + tail =~= txs);
        } else {
            assert(seq![txs[0]] + tail.insert(k - 1, t) =~= txs.insert(k, t));
        }
    }
}

/// Digests are ordered as their bytes are: the first byte in which they differ decides.
pub proof fn law_digests_are_ordered_byte_by_byte(a: Digest, b: Digest, k: int)
    requires
        0 <= k < 32,
        forall|i: int| 0 <= i < k ==> a@[i] == b@[i],
        a@[k] < b@[k],
    ensures
        order(a) < order(b),
{
    lemma_first_difference(a@, b@, k);
}

/// Adding drops nobody: all that were pending stay, the added one joins them, unless one
/// with its hash is pending already, and nobody else does.
pub proof fn law_added_drops_nobody(txs: Seq<TxView>, t: TxView)
    requires
        by_hash(txs),
    ensures
        forall|x: TxView| #[trigger] txs.contains(x) ==> added(txs, t).contains(x),
        includes(txs, tx::tx_hash(t)) ==> added(txs, t) == txs,
        !includes(txs, tx::tx_hash(t)) ==> {
            &&& added(txs, t).contains(t)
            &&& added(txs, t).len() == txs.len() + 1
        },
    decreases txs.len(),
{
    let all = added(txs, t);
    if txs.len() == 0 {
        assert(all[0] == t);
    } else if order(tx::tx_hash(t)) < order(tx::tx_hash(txs[0])) {
        assert(all[0] == t);
        assert forall|x: TxView| #[trigger] txs.contains(x) implies all.contains(x) by {
            let i = choose|i: int| 0 <= i < txs.len() && txs[i] == x;
            assert(all[i + 1] == x);
        }
        if includes(txs, tx::tx_hash(t)) {
            let i = choose|i: int|
                0 <= i < txs.len() && tx::tx_hash(#[trigger] txs[i]) == tx::tx_hash(t);
            assert(i > 0 ==> order(tx::tx_hash(txs[0])) < order(tx::tx_hash(txs[i])));
        }
    } else if order(tx::tx_hash(t)) == order(tx::tx_hash(txs[0])) {
        lemma_order_tells_apart(tx::tx_hash(txs[0]), tx::tx_hash(t));
        assert(includes(txs, tx::tx_hash(t)));
    } else {
        let tail = txs.skip(1);
        let rest = added(tail, t);
        law_added_drops_nobody(tail, t);
        assert(all[0] == txs[0]);
        assert forall|x: TxView| #[trigger] txs.contains(x) implies all.contains(x) by {
            let i = choose|i: int| 0 <= i < txs.len() && txs[i] == x;
            if i > 0 {
                assert(tail[i - 1] == x);
                assert(tail.contains(x));
                let j = choose|j: int| 0 <= j < rest.len() && rest[j] == x;
                assert(all[j + 1] == x);
            }
        }
        if includes(txs, tx::tx_hash(t)) {
            let i = choose|i: int|
                0 <= i < txs.len() && tx::tx_hash(#[trigger] txs[i]) == tx::tx_hash(t);
            assert(tail[i - 1] == txs[i]);
            assert(seq![txs[0]] + tail =~= txs);
        } else {
            if includes(tail, tx::tx_hash(t)) {
                let i = choose|i: int|
                    0 <= i < tail.len() && tx::tx_hash(#[trigger] tail[i]) == tx::tx_hash(t);
                assert(txs[i + 1] == tail[i]);
            }
            let j = choose|j: int| 0 <= j < rest.len() && rest[j] == t;
            assert(all[j + 1] == t);
        }
    }
}

/// What stays of a pool stood in it before, is not in the block, and keeps its order;
/// and all that is not in the block stays.
pub proof fn law_without_keeps_the_others(txs: Seq<TxView>, included: Seq<TxView>)
    requires
        by_hash(txs),
    ensures
        forall|x: TxView|
            #[trigger] without(txs, included).contains(x) <==> txs.contains(x) && !includes(
                included,
                tx::tx_hash(x),
            ),
        by_hash(without(txs, included)),
    decreases txs.len(),
{
    let rest = without(txs, included);
    if txs.len() > 0 {
        let tail = txs.skip(1);
        let kept = without(tail, included);
        law_without_keeps_the_others(tail, included);
        assert forall|x: TxView| tail.contains(x) || x == txs[0] <==> #[trigger] txs.contains(
            x,
        ) by {
            if txs.contains(x) {
                let i = choose|i: int| 0 <= i < txs.len() && txs[i] == x;
                if i > 0 {
                    assert(tail[i - 1] == x);
                }
            }
            if tail.contains(x) {
                let i = choose|i: int| 0 <= i < tail.len() && tail[i] == x;
                assert(txs[i + 1] == x);
            }
        }
        if !includes(included, tx::tx_hash(txs[0])) {
            assert forall|x: TxView| #[trigger] rest.contains(x) <==> kept.contains(x) || x
                == txs[0] by {
                if kept.contains(x) {
                    let i = choose|i: int| 0 <= i < kept.len() && kept[i] == x;
                    assert(rest[i + 1] == x);
                }
                if rest.contains(x) {
                    let i = choose|i: int| 0 <= i < rest.len() && rest[i] == x;
                    if i > 0 {
                        assert(kept[i - 1] == x);
                    }
                }
                assert(rest[0] == txs[0]);
            }
            assert forall|i: int, j: int| 0 <= i < j < rest.len() implies order(
                tx::tx_hash(#[trigger] rest[i]),
            ) < order(tx::tx_hash(#[trigger] rest[j])) by {
                assert(rest[j] == kept[j - 1]);
                if i > 0 {
                    assert(rest[i] == kept[i - 1]);
                } else {
                    assert(kept.contains(kept[j - 1]));
                    let k = choose|k: int| 0 <= k < tail.len() && tail[k] == kept[j - 1];
                    assert(txs[k + 1] == rest[j]);
                }
            }
        }
    }
}

proof fn lemma_selected_push(judge: Judge, st: StateView, txs: Seq<TxView>, t: TxView, max: nat)
    ensures
        ({
            let s = selected(judge, st, txs, max);
            let mid = state::applied_txs(judge, st, s)->Ok_0.0;
            selected(judge, st, txs.push(t), max) == if s.len() < max && state::applied_tx(
                judge,
                mid,
                t,
            ) is Ok {
                s.push(t)
            } else {
                s
            }
        }),
    decreases txs.len(),
{
    let all = txs.push(t);
    let s = selected(judge, st, txs, max);
    reveal_with_fuel(selected, 2);
    if txs.len() == 0 {
        assert(all.skip(1) =~= Seq::<TxView>::empty());
        assert(seq![t] + Seq::<TxView>::empty() =~= s.push(t));
    } else if max > 0 {
        assert(all.skip(1) =~= txs.skip(1).push(t));
        match state::applied_tx(judge, st, txs[0]) {
            Ok((after, _)) => {
                let less = (max - 1) as nat;
                let rest = selected(judge, after, txs.skip(1), less);
                lemma_selected_push(judge, after, txs.skip(1), t, less);
                law_selected_applies(judge, after, txs.skip(1), less);
                state::lemma_applied_txs_front(judge, st, txs[0], rest);
                assert(seq![txs[0]] + rest.push(t) =~= s.push(t));
            },
            Err(_) => {
                lemma_selected_push(judge, st, txs.skip(1), t, max);
            },
        }
    }
}

/// The builder passes over what does not apply and takes what does: of the pending
/// submission at `p`, it takes it exactly where there is room and it applies to what the
/// selected ones before it left.
pub proof fn law_each_pending_submission_is_tried(
    judge: Judge,
    st: StateView,
    txs: Seq<TxView>,
    max: nat,
    p: int,
)
    requires
        0 <= p < txs.len(),
    ensures
        ({
            let before = selected(judge, st, txs.take(p), max);
            let after = selected(judge, st, txs.take(p + 1), max);
            let mid = state::applied_txs(judge, st, before);
            &&& selected(judge, st, txs.take(0), max) == Seq::<TxView>::empty()
            &&& selected(judge, st, txs.take(txs.len() as int), max) == selected(
                judge,
                st,
                txs,
                max,
            )
            &&& mid is Ok
            &&& before.len() < max && state::applied_tx(judge, mid->Ok_0.0, txs[p]) is Ok ==> after
                == before.push(txs[p])
            &&& before.len() >= max || state::applied_tx(judge, mid->Ok_0.0, txs[p]) is Err
                ==> after == before
        }),
{
    assert(txs.take(p + 1) =~= txs.take(p).push(txs[p]));
    assert(txs.take(txs.len() as int) =~= txs);
    assert(txs.take(0) =~= Seq::<TxView>::empty());
    law_selected_applies(judge, st, txs.take(p), max);
    lemma_selected_push(judge, st, txs.take(p), txs[p], max);
}

/// A selection that ends below its limit leaves out only what failed when its turn came.
pub proof fn law_nothing_that_applies_is_left_out(
    judge: Judge,
    st: StateView,
    txs: Seq<TxView>,
    max: nat,
    p: int,
)
    requires
        0 <= p < txs.len(),
        selected(judge, st, txs, max).len() < max,
        !selected(judge, st, txs, max).contains(txs[p]),
    ensures
        ({
            let before = selected(judge, st, txs.take(p), max);
            let mid = state::applied_txs(judge, st, before);
            &&& mid is Ok
            &&& state::applied_tx(judge, mid->Ok_0.0, txs[p]) is Err
        }),
{
    law_each_pending_submission_is_tried(judge, st, txs, max, p);
    let before = selected(judge, st, txs.take(p), max);
    let after = selected(judge, st, txs.take(p + 1), max);
    lemma_selected_grows(judge, st, txs, max, p);
    lemma_selected_grows(judge, st, txs, max, p + 1);
    let all = selected(judge, st, txs, max);
    let mid = state::applied_txs(judge, st, before);
    if state::applied_tx(judge, mid->Ok_0.0, txs[p]) is Ok {
        assert(after.last() == txs[p]);
        assert(all[before.len() as int] == txs[p]);
    }
}

proof fn lemma_selected_grows(judge: Judge, st: StateView, txs: Seq<TxView>, max: nat, p: int)
    requires
        0 <= p <= txs.len(),
    ensures
        ({
            let some = selected(judge, st, txs.take(p), max);
            let all = selected(judge, st, txs, max);
            &&& some.len() <= all.len()
            &&& some == all.take(some.len() as int)
        }),
    decreases txs.len() - p,
{
    let some = selected(judge, st, txs.take(p), max);
    let all = selected(judge, st, txs, max);
    if p == txs.len() {
        assert(txs.take(p) =~= txs);
        assert(all.take(all.len() as int) =~= all);
    } else {
        law_each_pending_submission_is_tried(judge, st, txs, max, p);
        lemma_selected_grows(judge, st, txs, max, p + 1);
        let more = selected(judge, st, txs.take(p + 1), max);
        assert(some =~= more.take(some.len() as int));
        assert(some =~= all.take(some.len() as int));
    }
}

/// What is selected was pending, and stays in the order of the pool.
pub proof fn law_selected_are_pending(judge: Judge, st: StateView, txs: Seq<TxView>, max: nat)
    requires
        by_hash(txs),
    ensures
        forall|x: TxView| #[trigger]
            selected(judge, st, txs, max).contains(x) ==> txs.contains(x),
        by_hash(selected(judge, st, txs, max)),
    decreases txs.len(),
{
    if txs.len() > 0 && max > 0 {
        let tail = txs.skip(1);
        assert forall|x: TxView| #[trigger] tail.contains(x) implies txs.contains(x) by {
            let i = choose|i: int| 0 <= i < tail.len() && tail[i] == x;
            assert(txs[i + 1] == x);
        }
        assert(txs[0] == txs[0]);
        match state::applied_tx(judge, st, txs[0]) {
            Ok((after, _)) => {
                let rest = selected(judge, after, tail, (max - 1) as nat);
                let all = selected(judge, st, txs, max);
                law_selected_are_pending(judge, after, tail, (max - 1) as nat);
                assert forall|x: TxView| #[trigger] all.contains(x) implies txs.contains(x) by {
                    let i = choose|i: int| 0 <= i < all.len() && all[i] == x;
                    if i > 0 {
                        assert(rest[i - 1] == x);
                        assert(rest.contains(x));
                    }
                }
                assert forall|i: int, j: int| 0 <= i < j < all.len() implies order(
                    tx::tx_hash(#[trigger] all[i]),
                ) < order(tx::tx_hash(#[trigger] all[j])) by {
                    assert(all[j] == rest[j - 1]);
                    if i > 0 {
                        assert(all[i] == rest[i - 1]);
                    } else {
                        assert(rest.contains(rest[j - 1]));
                        let k = choose|k: int| 0 <= k < tail.len() && tail[k] == rest[j - 1];
                        assert(txs[k + 1] == all[j]);
                    }
                }
            },
            Err(_) => {
                law_selected_are_pending(judge, st, tail, max);
            },
        }
    }
}

proof fn lemma_nothing_selected(judge: Judge, st: StateView, txs: Seq<TxView>, max: nat)
    requires
        max > 0,
    ensures
        selected(judge, st, txs, max).len() == 0 <==> forall|i: int|
            0 <= i < txs.len() ==> state::applied_tx(judge, st, #[trigger] txs[i]) is Err,
    decreases txs.len(),
{
    if txs.len() > 0 {
        let tail = txs.skip(1);
        lemma_nothing_selected(judge, st, tail, max);
        if state::applied_tx(judge, st, txs[0]) is Err {
            if forall|i: int|
                0 <= i < txs.len() ==> state::applied_tx(judge, st, #[trigger] txs[i]) is Err {
                assert forall|i: int| 0 <= i < tail.len() implies state::applied_tx(
                    judge,
                    st,
                    #[trigger] tail[i],
                ) is Err by {
                    assert(tail[i] == txs[i + 1]);
                }
            }
            if selected(judge, st, tail, max).len() == 0 {
                assert forall|i: int| 0 <= i < txs.len() implies state::applied_tx(
                    judge,
                    st,
                    #[trigger] txs[i],
                ) is Err by {
                    if i > 0 {
                        assert(tail[i - 1] == txs[i]);
                    }
                }
            }
        }
    }
}

/// There is no block exactly where no pending submission applies to the chain's state at
/// the block's time.
pub proof fn law_no_block_only_where_nothing_applies(
    judge: Judge,
    pool: PoolView,
    c: ChainView,
    timestamp_days: u32,
)
    requires
        c.state.height < u64::MAX,
        pool.max_txs > 0,
    ensures
        built(judge, pool, c, timestamp_days) is None <==> forall|i: int|
            0 <= i < pool.txs.len() ==> state::applied_tx(
                judge,
                StateView { now_days: timestamp_days, ..c.state },
                #[trigger] pool.txs[i],
            ) is Err,
{
    lemma_nothing_selected(
        judge,
        StateView { now_days: timestamp_days, ..c.state },
        pool.txs,
        pool.max_txs as nat,
    );
}

/// A built block is the next one after the head, at the time asked for, and its
/// submissions were pending, in their order. It holds all that the limit has room for:
/// below the limit, what is left out failed when its turn came.
pub proof fn law_a_built_block_is_the_next(
    judge: Judge,
    pool: PoolView,
    c: ChainView,
    timestamp_days: u32,
)
    requires
        by_hash(pool.txs),
        built(judge, pool, c, timestamp_days) is Some,
    ensures
        ({
            let b = built(judge, pool, c, timestamp_days)->0;
            let st = StateView { now_days: timestamp_days, ..c.state };
            &&& b.height == c.state.height + 1
            &&& b.prev_hash == c.head
            &&& b.timestamp_days == timestamp_days
            &&& 0 < b.txs.len() <= pool.max_txs
            &&& by_hash(b.txs)
            &&& forall|x: TxView| #[trigger] b.txs.contains(x) ==> pool.txs.contains(x)
            &&& forall|p: int|
                0 <= p < pool.txs.len() && b.txs.len() < pool.max_txs && !b.txs.contains(
                    #[trigger] pool.txs[p],
                ) ==> {
                    let before = selected(judge, st, pool.txs.take(p), pool.max_txs as nat);
                    let mid = state::applied_txs(judge, st, before);
                    mid is Ok && state::applied_tx(judge, mid->Ok_0.0, pool.txs[p]) is Err
                }
        }),
{
    let st = StateView { now_days: timestamp_days, ..c.state };
    let max = pool.max_txs as nat;
    law_selected_are_pending(judge, st, pool.txs, max);
    law_selected_applies(judge, st, pool.txs, max);
    let b = built(judge, pool, c, timestamp_days)->0;
    assert forall|p: int|
        0 <= p < pool.txs.len() && b.txs.len() < pool.max_txs && !b.txs.contains(
            #[trigger] pool.txs[p],
        ) implies {
        let before = selected(judge, st, pool.txs.take(p), pool.max_txs as nat);
        let mid = state::applied_txs(judge, st, before);
        mid is Ok && state::applied_tx(judge, mid->Ok_0.0, pool.txs[p]) is Err
    } by {
        law_nothing_that_applies_is_left_out(judge, st, pool.txs, max, p);
    }
}

/// What a builder selects applies, one after another.
pub proof fn law_selected_applies(judge: Judge, st: StateView, txs: Seq<TxView>, max: nat)
    ensures
        state::applied_txs(judge, st, selected(judge, st, txs, max)) is Ok,
        selected(judge, st, txs, max).len() <= max,
    decreases txs.len(),
{
    if txs.len() > 0 && max > 0 {
        match state::applied_tx(judge, st, txs[0]) {
            Ok((after, _)) => {
                let rest = selected(judge, after, txs.skip(1), (max - 1) as nat);
                law_selected_applies(judge, after, txs.skip(1), (max - 1) as nat);
                state::lemma_applied_txs_front(judge, st, txs[0], rest);
            },
            Err(_) => {
                law_selected_applies(judge, st, txs.skip(1), max);
            },
        }
    }
}

/// A block built for a chain commits to that chain.
pub proof fn law_built_block_commits(
    judge: Judge,
    pool: PoolView,
    c: ChainView,
    timestamp_days: u32,
)
    ensures
        built(judge, pool, c, timestamp_days) matches Some(b) ==> {
            &&& chain::committed(judge, c, b) is Ok
            &&& 0 < b.txs.len() <= pool.max_txs
        },
{
    law_selected_applies(
        judge,
        StateView { now_days: timestamp_days, ..c.state },
        pool.txs,
        pool.max_txs as nat,
    );
}

// --- the pool -----------------------------------------------------------------

/// Pending submissions, each with its hash.
pub struct Mempool {
    max_txs: usize,
    entries: Vec<(Digest, SubmissionTx)>,
}

spec fn entries_view(entries: Seq<(Digest, SubmissionTx)>) -> Seq<TxView> {
    entries.map_values(|e: (Digest, SubmissionTx)| e.1@)
}

impl View for Mempool {
    type V = PoolView;

    closed spec fn view(&self) -> PoolView {
        PoolView { max_txs: self.max_txs, txs: entries_view(self.entries@) }
    }
}

spec fn hashes_match(entries: Seq<(Digest, SubmissionTx)>) -> bool {
    forall|i: int| 0 <= i < entries.len() ==> (#[trigger] entries[i]).0 == tx::tx_hash(entries[i].1@)
}

impl Mempool {
    /// Whether the pool is in order and its hashes are those of its submissions.
    pub closed spec fn wf(&self) -> bool {
        &&& by_hash(self@.txs)
        &&& hashes_match(self.entries@)
    }

    /// An empty pool that yields blocks of at most `max_txs` submissions.
    pub fn new(max_txs: usize) -> (r: Mempool)
        ensures
            r.wf(),
            r@ == (PoolView { max_txs, txs: Seq::<TxView>::empty() }),
    {
        let r = Mempool { max_txs, entries: Vec::new() };
        assert(r@.txs =~= Seq::<TxView>::empty());
        r
    }

    /// The number of pending submissions.
    pub fn len(&self) -> (r: usize)
        ensures
            r == self@.txs.len(),
    {
        self.entries.len()
    }

    /// Admits a submission that passes the checks of the chain's state, and returns
    /// its hash. Admitting it again changes nothing.
    pub fn insert(&mut self, c: &Chain, t: SubmissionTx) -> (r: Result<Digest, ChainError>)
        requires
            old(self).wf(),
        ensures
            final(self).wf(),
            match state::check_tx(c@.state, t@) {
                Err(e) => {
                    &&& r == Err::<Digest, ChainError>(e)
                    &&& final(self)@ == old(self)@
                },
                Ok(()) => {
                    &&& r == Ok::<Digest, ChainError>(tx::tx_hash(t@))
                    &&& final(self)@ == (PoolView { txs: added(old(self)@.txs, t@), ..old(self)@ })
                },
            },
    {
        match c.state.validate_tx(&t) {
            Ok(()) => {},
            Err(e) => {
                return Err(e);
            },
        }
        let h = t.hash();
        let ghost txs = self@.txs;
        let mut k: usize = 0;
        while k < self.entries.len() && stands_before(&self.entries[k].0, &h)
            invariant
                k <= self.entries.len(),
                self.wf(),
                self@ == old(self)@,
                txs == self@.txs,
                h == tx::tx_hash(t@),
                forall|i: int|
                    0 <= i < k ==> order(tx::tx_hash(#[trigger] txs[i])) < order(h),
            decreases self.entries.len() - k,
        {
            assert(txs[k as int] == self.entries@[k as int].1@);
            k += 1;
        }
        proof {
            if k < self.entries.len() {
                assert(txs[k as int] == self.entries@[k as int].1@);
            }
            lemma_added_at(txs, t@, k as int);
            law_added_keeps_order(txs, t@);
        }
        if k < self.entries.len() && !stands_before(&h, &self.entries[k].0) {
            return Ok(h);
        }
        let ghost before = self.entries@;
        let ghost tv = t@;
        self.entries.insert(k, (h, t));
        assert(entries_view(self.entries@) =~= txs.insert(k as int, tv));
        assert(hashes_match(self.entries@)) by {
            assert forall|i: int| 0 <= i < self.entries@.len() implies (#[trigger] self.entries@[i]).0
                == tx::tx_hash(self.entries@[i].1@) by {
                if i < k {
                    assert(self.entries@[i] == before[i]);
                } else if i > k {
                    assert(self.entries@[i] == before[i - 1]);
                }
            }
        }
        Ok(h)
    }

    /// Whether a submission with the given hash is pending.
    pub fn contains(&self, h: &Digest) -> (r: bool)
        requires
            self.wf(),
        ensures
            r == includes(self@.txs, *h),
    {
        let mut i: usize = 0;
        while i < self.entries.len()
            invariant
                i <= self.entries.len(),
                self.wf(),
                forall|j: int| 0 <= j < i ==> tx::tx_hash(#[trigger] self@.txs[j]) != *h,
            decreases self.entries.len() - i,
        {
            assert(self@.txs[i as int] == self.entries@[i as int].1@);
            if same_bytes(&self.entries[i].0, h) {
                return true;
            }
            i += 1;
        }
        false
    }

    /// Builds the next block by running submissions on a copy of the state, in hash
    /// order, and keeping those that apply. Nothing that applies means no block.
    pub fn build_block<F: Fn(&Assessment) -> u32>(
        &self,
        engine: &F,
        c: &Chain,
        timestamp_days: u32,
    ) -> (r: Option<Block>)
        requires
            graph::is_function(*engine),
            self.wf(),
        ensures
            parse::viewed_option(r) == built(graph::judge(*engine), self@, c@, timestamp_days),
    {
        let ghost judge = graph::judge(*engine);
        if c.state.height == u64::MAX {
            return None;
        }
        let mut trial = c.state.clone();
        trial.now_days = timestamp_days;
        let mut txs: Vec<SubmissionTx> = Vec::new();
        let ghost pool = self@.txs;
        let ghost all = selected(judge, trial@, pool, self.max_txs as nat);
        let mut i: usize = 0;
        assert(trial@ =~= (StateView { now_days: timestamp_days, ..c@.state }));
        assert(pool.skip(0) =~= pool);
        assert(tx::txs_view(txs@) + all =~= all);
        while i < self.entries.len() && txs.len() < self.max_txs
            invariant
                i <= self.entries.len(),
                graph::is_function(*engine),
                judge == graph::judge(*engine),
                pool == self@.txs,
                txs.len() <= self.max_txs,
                tx::txs_view(txs@) + selected(
                    judge,
                    trial@,
                    pool.skip(i as int),
                    (self.max_txs - txs.len()) as nat,
                ) == all,
            decreases self.entries.len() - i,
        {
            let ghost done = tx::txs_view(txs@);
            let ghost before = trial@;
            let ghost room = (self.max_txs - txs.len()) as nat;
            proof {
                assert(pool.skip(i as int).skip(1) =~= pool.skip(i + 1));
                assert(pool.skip(i as int)[0] == self.entries@[i as int].1@);
            }
            match trial.apply_tx(engine, &self.entries[i].1) {
                Ok(_) => {
                    let t = self.entries[i].1.clone();
                    txs.push(t);
                    assert(tx::txs_view(txs@) =~= done.push(t@));
                    let ghost rest = selected(
                        judge,
                        trial@,
                        pool.skip(i + 1),
                        (room - 1) as nat,
                    );
                    assert(done + (seq![t@] + rest) =~= done.push(t@) + rest);
                },
                Err(_) => {},
            }
            i += 1;
        }
        assert(all =~= tx::txs_view(txs@));
        if txs.len() == 0 {
            return None;
        }
        Some(Block { height: c.state.height + 1, prev_hash: c.head, timestamp_days, txs })
    }

    /// Drops every submission that a block includes.
    pub fn remove_included(&mut self, b: &Block)
        requires
            old(self).wf(),
        ensures
            final(self).wf(),
            final(self)@ == (PoolView { txs: without(old(self)@.txs, b@.txs), ..old(self)@ }),
    {
        let hashes = tx_hashes(&b.txs);
        let ghost orig = self@.txs;
        let ghost mut k: int = 0;
        let mut i: usize = 0;
        assert(orig.skip(0) =~= orig);
        assert(orig.take(0) + without(orig, b@.txs) =~= without(orig, b@.txs));
        while i < self.entries.len()
            invariant
                self.wf(),
                self.max_txs == old(self)@.max_txs,
                hashes@ == b@.txs.map_values(|t: TxView| tx::tx_hash(t)),
                i <= self.entries.len(),
                0 <= k <= orig.len(),
                orig == old(self)@.txs,
                self@.txs.len() - i == orig.len() - k,
                self@.txs.skip(i as int) == orig.skip(k),
                self@.txs.take(i as int) + without(orig.skip(k), b@.txs) == without(orig, b@.txs),
            decreases self.entries.len() - i,
        {
            let ghost txs = self@.txs;
            let ghost kept = txs.take(i as int);
            proof {
                assert(txs.skip(i as int)[0] == orig.skip(k)[0]);
                assert(txs[i as int] == self.entries@[i as int].1@);
                assert(orig.skip(k).skip(1) =~= orig.skip(k + 1));
                assert(txs.skip(i as int).skip(1) =~= txs.skip(i + 1));
            }
            if listed(&hashes, &self.entries[i].0, Ghost(b@.txs)) {
                let ghost before = self.entries@;
                self.entries.remove(i);
                proof {
                    assert(self@.txs =~= txs.remove(i as int));
                    assert(self@.txs.skip(i as int) =~= txs.skip(i + 1));
                    assert(self@.txs.take(i as int) =~= kept);
                    assert forall|x: int, y: int| 0 <= x < y < self@.txs.len() implies order(
                        tx::tx_hash(#[trigger] self@.txs[x]),
                    ) < order(tx::tx_hash(#[trigger] self@.txs[y])) by {
                        let x0 = if x < i {
                            x
                        } else {
                            x + 1
                        };
                        let y0 = if y < i {
                            y
                        } else {
                            y + 1
                        };
                        assert(self@.txs[x] == txs[x0]);
                        assert(self@.txs[y] == txs[y0]);
                    }
                    assert forall|x: int| 0 <= x < self.entries@.len() implies (
                    #[trigger] self.entries@[x]).0 == tx::tx_hash(self.entries@[x].1@) by {
                        let x0 = if x < i {
                            x
                        } else {
                            x + 1
                        };
                        assert(self.entries@[x] == before[x0]);
                    }
                }
            } else {
                proof {
                    assert(txs.take(i + 1) =~= kept.push(txs[i as int]));
                    let rest = without(orig.skip(k + 1), b@.txs);
                    assert(kept + (seq![txs[i as int]] + rest) =~= kept.push(txs[i as int]) + rest);
                }
                i += 1;
            }
            proof {
                k = k + 1;
            }
        }
        proof {
            assert(orig.skip(k) =~= Seq::<TxView>::empty());
            assert(self@.txs.take(i as int) =~= self@.txs);
            assert(self@.txs + Seq::<TxView>::empty() =~= self@.txs);
        }
    }
}

/// The hashes of a list of submissions.
fn tx_hashes(txs: &Vec<SubmissionTx>) -> (r: Vec<Digest>)
    ensures
        r@ == tx::txs_view(txs@).map_values(|t: TxView| tx::tx_hash(t)),
{
    let mut r: Vec<Digest> = Vec::new();
    let ghost all = tx::txs_view(txs@).map_values(|t: TxView| tx::tx_hash(t));
    let mut i: usize = 0;
    while i < txs.len()
        invariant
            i <= txs.len(),
            all == tx::txs_view(txs@).map_values(|t: TxView| tx::tx_hash(t)),
            r@ == all.take(i as int),
        decreases txs.len() - i,
    {
        r.push(txs[i].hash());
        assert(all.take(i + 1) =~= all.take(i as int).push(all[i as int]));
        i += 1;
    }
    assert(all.take(i as int) =~= all);
    r
}

/// Whether a digest is among the hashes of the given submissions.
fn listed(hashes: &Vec<Digest>, h: &Digest, txs: Ghost<Seq<TxView>>) -> (r: bool)
    requires
        hashes@ == txs@.map_values(|t: TxView| tx::tx_hash(t)),
    ensures
        r == includes(txs@, *h),
{
    let mut i: usize = 0;
    while i < hashes.len()
        invariant
            i <= hashes.len(),
            hashes@ == txs@.map_values(|t: TxView| tx::tx_hash(t)),
            forall|j: int| 0 <= j < i ==> tx::tx_hash(#[trigger] txs@[j]) != *h,
        decreases hashes.len() - i,
    {
        assert(hashes@[i as int] == tx::tx_hash(txs@[i as int]));
        if same_bytes(&hashes[i], h) {
            return true;
        }
        i += 1;
    }
    false
}

} // verus!
