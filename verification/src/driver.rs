//! The chain driver: grows a certified chain one height at a time.
//!
//! For each height the driver builds the next block from the pool, runs a vote over
//! it, commits the finalized block and keeps its certificate. Where too much power
//! is silent the height stalls: nothing is committed without a quorum.

use std::collections::{BTreeMap, BTreeSet};

use vstd::arithmetic::power2::pow2;
use vstd::prelude::*;

use crate::bytes::same_bytes;
use crate::chain;
use crate::chain::{Chain, ChainView};
use crate::clock;
use crate::clock::later;
use crate::consensus;
use crate::consensus::{Commit, CommitView};
use crate::crypto::Keypair;
use crate::graph;
use crate::graph::{Assessment, Judge};
use crate::ledger;
use crate::mempool;
use crate::mempool::{Mempool, PoolView};
use crate::ordered;
use crate::ordered::sorted_keys;
use crate::round;
use crate::round::Sim;
use crate::state;
use crate::state::{ChainError, Genesis, GenesisView};
use crate::tx;
use crate::tx::{Block, BlockView, SubmissionTx, TxView};
use crate::validator;
use crate::validator::{Validator, ValidatorSet};
use crate::Digest;

verus! {

/// Why a height was not produced.
#[derive(Clone, Copy, Debug, PartialEq, Eq)]
pub enum DriverError {
    /// No quorum finalized the height.
    ConsensusStalled { height: u64 },
    /// The finalized certificate does not verify.
    BadCertificate { height: u64 },
    /// The finalized block does not apply.
    Apply(ChainError),
}

/// A chain with its pool, its validators, the keys it votes with, and the
/// certificate of every committed height.
#[verifier::ext_equal]
pub struct DriverView {
    pub chain: ChainView,
    pub pool: PoolView,
    pub validators: Seq<Validator>,
    pub seeds: Map<u64, Seq<u8>>,
    pub certs: Seq<CommitView>,
}

/// A driver at genesis.
pub open spec fn started(
    g: GenesisView,
    validators: Seq<Validator>,
    seeds: Map<u64, Seq<u8>>,
    max_txs: usize,
) -> DriverView {
    DriverView {
        chain: chain::genesis_chain(g),
        pool: PoolView { max_txs, txs: Seq::empty() },
        validators,
        seeds,
        certs: Seq::empty(),
    }
}

/// One height: `None` where the pool yields no block, otherwise the grown driver and
/// the certificate.
pub open spec fn produced(
    judge: Judge,
    d: DriverView,
    timestamp_days: u32,
    silent: Set<u64>,
) -> Result<Option<(DriverView, CommitView)>, DriverError> {
    match mempool::built(judge, d.pool, d.chain, timestamp_days) {
        None => Ok(None),
        Some(b) => {
            let cert = round::certificate(
                d.validators,
                d.seeds,
                silent,
                b.height,
                tx::block_hash(b),
            );
            if !round::can_finalize(d.validators, d.seeds, silent) {
                Err(DriverError::ConsensusStalled { height: b.height })
            } else if consensus::certified(d.validators, cert) is Err {
                Err(DriverError::BadCertificate { height: b.height })
            } else {
                match chain::committed(judge, d.chain, b) {
                    Err(e) => Err(DriverError::Apply(e)),
                    Ok((grown, _)) => Ok(
                        Some(
                            (
                                DriverView {
                                    chain: grown,
                                    pool: PoolView {
                                        txs: mempool::without(d.pool.txs, b.txs),
                                        ..d.pool
                                    },
                                    certs: d.certs.push(cert),
                                    ..d
                                },
                                cert,
                            ),
                        ),
                    ),
                }
            }
        },
    }
}

/// Heights produced a day apart with nobody silent, from the one `n` days after
/// `start` to at most `max` in all, until the pool yields no block: the driver as it
/// is then, and how many heights were produced in all or what stopped it.
pub open spec fn drained(judge: Judge, d: DriverView, start: u32, n: nat, max: nat) -> (
    DriverView,
    Result<usize, DriverError>,
)
    decreases max - n,
{
    if n >= max {
        (d, Ok(n as usize))
    } else {
        match produced(judge, d, clock::days_later(start, n), Set::empty()) {
            Err(e) => (d, Err(e)),
            Ok(None) => (d, Ok(n as usize)),
            Ok(Some((next, _))) => drained(judge, next, start, n + 1, max),
        }
    }
}

/// Whether every committed height has a certificate that verifies and names the
/// block committed there.
pub open spec fn is_certified_chain(d: DriverView) -> bool {
    &&& d.certs.len() == d.chain.state.height
    &&& d.chain.block_hashes.len() == d.certs.len() + 1
    &&& d.chain.head == d.chain.block_hashes.last()
    &&& forall|i: int|
        0 <= i < d.certs.len() ==> {
            &&& (#[trigger] d.certs[i]).height == i + 1
            &&& d.certs[i].block_hash == d.chain.block_hashes[i + 1]
            &&& consensus::certified(d.validators, d.certs[i]) is Ok
        }
}

// --- laws ---------------------------------------------------------------------

/// A driver at genesis is a certified chain.
pub proof fn law_started_is_certified(
    g: GenesisView,
    validators: Seq<Validator>,
    seeds: Map<u64, Seq<u8>>,
    max_txs: usize,
)
    ensures
        is_certified_chain(started(g, validators, seeds, max_txs)),
{
}

/// Every produced height extends the certified chain by one block and its
/// certificate, which is for exactly that block.
pub proof fn law_produced_stays_certified(
    judge: Judge,
    d: DriverView,
    timestamp_days: u32,
    silent: Set<u64>,
)
    requires
        is_certified_chain(d),
    ensures
        produced(judge, d, timestamp_days, silent) matches Ok(Some((next, cert))) ==> {
            &&& is_certified_chain(next)
            &&& next.chain.state.height == d.chain.state.height + 1
            &&& cert.height == next.chain.state.height
            &&& cert.block_hash == next.chain.head
            &&& consensus::certified(d.validators, cert) is Ok
        },
{
    if let Ok(Some((next, cert))) = produced(judge, d, timestamp_days, silent) {
        let b = mempool::built(judge, d.pool, d.chain, timestamp_days)->0;
        state::lemma_applied_txs(
            judge,
            state::StateView { now_days: b.timestamp_days, ..d.chain.state },
            b.txs,
        );
        assert forall|i: int| 0 <= i < next.certs.len() implies {
            &&& (#[trigger] next.certs[i]).height == i + 1
            &&& next.certs[i].block_hash == next.chain.block_hashes[i + 1]
            &&& consensus::certified(next.validators, next.certs[i]) is Ok
        } by {
            if i < d.certs.len() {
                assert(next.certs[i] == d.certs[i]);
            }
        }
    }
}

/// A finalized block always applies: it was built by running it on this very state.
pub proof fn law_finalized_block_applies(
    judge: Judge,
    d: DriverView,
    timestamp_days: u32,
    silent: Set<u64>,
)
    ensures
        !(produced(judge, d, timestamp_days, silent) matches Err(DriverError::Apply(_))),
{
    mempool::law_built_block_commits(judge, d.pool, d.chain, timestamp_days);
}

/// A third or more of the power silent stalls the height: nothing is finalized
/// without a quorum.
pub proof fn law_no_quorum_no_block(
    judge: Judge,
    d: DriverView,
    timestamp_days: u32,
    silent: Set<u64>,
)
    requires
        3 * consensus::voting_power(d.validators, silent) >= validator::power_sum(d.validators),
    ensures
        match mempool::built(judge, d.pool, d.chain, timestamp_days) {
            None => produced(judge, d, timestamp_days, silent) == Ok::<
                Option<(DriverView, CommitView)>,
                DriverError,
            >(None),
            Some(b) => produced(judge, d, timestamp_days, silent) == Err::<
                Option<(DriverView, CommitView)>,
                DriverError,
            >(DriverError::ConsensusStalled { height: b.height }),
        },
{
    round::law_a_third_silent_is_too_much(d.validators, d.seeds, silent);
}

/// Less than a third of the power silent stalls nothing: where every validator has
/// its key with the driver, what is not produced for want of a block is finalized,
/// unless a signature fails.
pub proof fn law_progress_below_a_third(
    judge: Judge,
    d: DriverView,
    timestamp_days: u32,
    silent: Set<u64>,
)
    requires
        forall|i: int|
            0 <= i < d.validators.len() ==> d.seeds.contains_key((#[trigger] d.validators[i]).id),
        3 * consensus::voting_power(d.validators, silent) < validator::power_sum(d.validators),
    ensures
        round::can_finalize(d.validators, d.seeds, silent),
        !(produced(judge, d, timestamp_days, silent) matches Err(
            DriverError::ConsensusStalled { height: _ },
        )),
        !(produced(judge, d, timestamp_days, silent) matches Err(DriverError::Apply(_))),
{
    round::law_a_third_silent_is_too_much(d.validators, d.seeds, silent);
    law_finalized_block_applies(judge, d, timestamp_days, silent);
}

/// Producing a height conserves the supply.
pub proof fn law_produced_conserves(
    judge: Judge,
    d: DriverView,
    timestamp_days: u32,
    silent: Set<u64>,
)
    requires
        d.chain.state.accounts.dom().finite(),
        ledger::conserved(d.chain.state),
    ensures
        produced(judge, d, timestamp_days, silent) matches Ok(Some((next, _))) ==> {
            &&& next.chain.state.accounts.dom() == d.chain.state.accounts.dom()
            &&& ledger::conserved(next.chain.state)
        },
{
    if let Some(b) = mempool::built(judge, d.pool, d.chain, timestamp_days) {
        ledger::law_block_conserves(judge, d.chain.state, b);
    }
}

/// Every height that drains a pool keeps the chain certified and its supply
/// conserved.
pub proof fn law_drained_stays_certified(
    judge: Judge,
    d: DriverView,
    start: u32,
    n: nat,
    max: nat,
)
    requires
        is_certified_chain(d),
        d.chain.state.accounts.dom().finite(),
        ledger::conserved(d.chain.state),
    ensures
        is_certified_chain(drained(judge, d, start, n, max).0),
        ledger::conserved(drained(judge, d, start, n, max).0.chain.state),
    decreases max - n,
{
    if n < max {
        let now = clock::days_later(start, n);
        law_produced_stays_certified(judge, d, now, Set::empty());
        law_produced_conserves(judge, d, now, Set::empty());
        if let Ok(Some((next, _))) = produced(judge, d, now, Set::empty()) {
            law_drained_stays_certified(judge, next, start, n + 1, max);
        }
    }
}

/// A produced height is one block on top of the chain: the next one, at the time asked
/// for, of submissions that were pending. They leave the pool, all others stay, and the
/// certificate is for that block.
pub proof fn law_a_produced_height_is_one_block(
    judge: Judge,
    d: DriverView,
    timestamp_days: u32,
    silent: Set<u64>,
)
    requires
        mempool::by_hash(d.pool.txs),
        produced(judge, d, timestamp_days, silent) matches Ok(Some(_)),
    ensures
        ({
            let (next, cert) = produced(judge, d, timestamp_days, silent)->Ok_0->0;
            &&& next.chain.state.height == d.chain.state.height + 1
            &&& next.chain.state.now_days == timestamp_days
            &&& next.certs == d.certs.push(cert)
            &&& next.validators == d.validators
            &&& next.seeds == d.seeds
            &&& next.pool.max_txs == d.pool.max_txs
            &&& exists|b: BlockView|
                {
                    &&& #[trigger] chain::committed(judge, d.chain, b) is Ok
                    &&& chain::committed(judge, d.chain, b)->Ok_0.0 == next.chain
                    &&& b.height == d.chain.state.height + 1
                    &&& b.prev_hash == d.chain.head
                    &&& b.timestamp_days == timestamp_days
                    &&& 0 < b.txs.len() <= d.pool.max_txs
                    &&& forall|x: TxView| #[trigger] b.txs.contains(x) ==> d.pool.txs.contains(x)
                    &&& forall|x: TxView|
                        #[trigger] next.pool.txs.contains(x) <==> d.pool.txs.contains(x)
                            && !mempool::includes(b.txs, tx::tx_hash(x))
                    &&& cert.height == b.height
                    &&& cert.block_hash == tx::block_hash(b)
                }
        }),
{
    let b = mempool::built(judge, d.pool, d.chain, timestamp_days)->0;
    mempool::law_a_built_block_is_the_next(judge, d.pool, d.chain, timestamp_days);
    mempool::law_without_keeps_the_others(d.pool.txs, b.txs);
    state::lemma_applied_txs(
        judge,
        state::StateView { now_days: b.timestamp_days, ..d.chain.state },
        b.txs,
    );
    assert(chain::committed(judge, d.chain, b) is Ok);
}

/// No height is produced, without an error, exactly where no pending submission applies
/// at the time asked for; and a height that stalls is the next one.
pub proof fn law_no_height_only_where_nothing_applies(
    judge: Judge,
    d: DriverView,
    timestamp_days: u32,
    silent: Set<u64>,
)
    requires
        d.chain.state.height < u64::MAX,
        d.pool.max_txs > 0,
    ensures
        (produced(judge, d, timestamp_days, silent) matches Ok(None)) <==> forall|i: int|
            0 <= i < d.pool.txs.len() ==> state::applied_tx(
                judge,
                state::StateView { now_days: timestamp_days, ..d.chain.state },
                #[trigger] d.pool.txs[i],
            ) is Err,
        produced(judge, d, timestamp_days, silent) matches Err(
            DriverError::ConsensusStalled { height },
        ) ==> height == d.chain.state.height + 1,
        produced(judge, d, timestamp_days, silent) matches Err(
            DriverError::BadCertificate { height },
        ) ==> height == d.chain.state.height + 1,
{
    mempool::law_no_block_only_where_nothing_applies(judge, d.pool, d.chain, timestamp_days);
}

proof fn lemma_one_height(judge: Judge, d: DriverView, timestamp_days: u32, silent: Set<u64>)
    ensures
        produced(judge, d, timestamp_days, silent) matches Ok(Some((next, _))) ==> {
            &&& next.chain.state.height == d.chain.state.height + 1
            &&& next.chain.state.now_days == timestamp_days
            &&& next.certs.len() == d.certs.len() + 1
            &&& next.validators == d.validators
            &&& next.seeds == d.seeds
        },
{
    if let Ok(Some(_)) = produced(judge, d, timestamp_days, silent) {
        let b = mempool::built(judge, d.pool, d.chain, timestamp_days)->0;
        state::lemma_applied_txs(
            judge,
            state::StateView { now_days: b.timestamp_days, ..d.chain.state },
            b.txs,
        );
    }
}

/// Draining produces heights a day apart: after `m` of them, the first `n` days after the
/// start, the time is that of the last, `n + m - 1` days after the start. It ends where
/// the limit is reached, where the next day yields no block, or where it fails.
#[verifier::spinoff_prover]
#[verifier::rlimit(40)]
pub proof fn law_drained_heights_are_a_day_apart(
    judge: Judge,
    d: DriverView,
    start: u32,
    n: nat,
    max: nat,
)
    requires
        n <= max <= usize::MAX,
    ensures
        ({
            let (end, r) = drained(judge, d, start, n, max);
            let m = end.chain.state.height - d.chain.state.height;
            &&& 0 <= m <= max - n
            &&& m == 0 ==> end == d
            &&& m > 0 ==> end.chain.state.now_days == clock::days_later(start, (n + m - 1) as nat)
            &&& end.certs.len() == d.certs.len() + m
            &&& end.validators == d.validators
            &&& end.seeds == d.seeds
            &&& r matches Ok(k) ==> k == n + m
            &&& r is Ok && n + m < max ==> (produced(
                judge,
                end,
                clock::days_later(start, (n + m) as nat),
                Set::empty(),
            ) matches Ok(None))
            &&& r matches Err(e) ==> m < max - n && produced(
                judge,
                end,
                clock::days_later(start, (n + m) as nat),
                Set::empty(),
            ) == Err::<Option<(DriverView, CommitView)>, DriverError>(e)
        }),
    decreases max - n,
{
    if n < max {
        let now = clock::days_later(start, n);
        if let Ok(Some((next, _))) = produced(judge, d, now, Set::empty()) {
            lemma_one_height(judge, d, now, Set::empty());
            law_drained_heights_are_a_day_apart(judge, next, start, n + 1, max);
        }
    }
}

/// The time of the `m`-th height that drains a pool, counted in whole days: each height
/// is one day after the one before it.
pub proof fn law_drained_times_count_days(
    judge: Judge,
    d: DriverView,
    start: u32,
    days: nat,
    max: nat,
)
    requires
        max <= usize::MAX,
        start < 0x7f80_0000,
        clock::amount(start) == days * pow2(149),
        days + max <= 0x100_0000,
    ensures
        ({
            let end = drained(judge, d, start, 0, max).0;
            let m = end.chain.state.height - d.chain.state.height;
            m > 0 ==> clock::amount(end.chain.state.now_days) == (days + m - 1) * pow2(149)
        }),
{
    law_drained_heights_are_a_day_apart(judge, d, start, 0, max);
    let m = drained(judge, d, start, 0, max).0.chain.state.height - d.chain.state.height;
    if m > 0 {
        clock::law_days_add_up(start, days, (m - 1) as nat);
    }
}

/// Draining goes on where it was left: to a limit, then from there to a later one, is to
/// the later one at once.
#[verifier::spinoff_prover]
#[verifier::rlimit(40)]
pub proof fn law_draining_resumes(
    judge: Judge,
    d: DriverView,
    start: u32,
    n: nat,
    mid: nat,
    max: nat,
)
    requires
        n <= mid <= max <= usize::MAX,
        drained(judge, d, start, n, mid).1 == Ok::<usize, DriverError>(mid as usize),
    ensures
        drained(judge, d, start, n, max) == drained(
            judge,
            drained(judge, d, start, n, mid).0,
            start,
            mid,
            max,
        ),
    decreases mid - n,
{
    if n < mid {
        if let Ok(Some((next, _))) = produced(
            judge,
            d,
            clock::days_later(start, n),
            Set::empty(),
        ) {
            law_draining_resumes(judge, next, start, n + 1, mid, max);
        }
    }
}

proof fn lemma_someone_decides(
    vs: Seq<Validator>,
    all: Seq<Validator>,
    seeds: Map<u64, Seq<u8>>,
    silent: Set<u64>,
)
    requires
        consensus::voting_power(vs, round::awake(seeds, silent)) > 0,
        vs.len() <= all.len(),
        vs == all.take(vs.len() as int),
    ensures
        exists|id: u64| round::deciders(all, seeds, silent).contains(id),
    decreases vs.len(),
{
    let id = vs.last().id;
    if round::awake(seeds, silent).contains(id) {
        assert(all[vs.len() - 1].id == id);
        assert(round::deciders(all, seeds, silent).contains(id));
    } else {
        assert(vs.drop_last() =~= all.take(vs.len() - 1));
        lemma_someone_decides(vs.drop_last(), all, seeds, silent);
    }
}

// --- the driver ---------------------------------------------------------------

/// Grows a certified chain, one height per [`ChainDriver::produce`].
pub struct ChainDriver {
    pub chain: Chain,
    pub mempool: Mempool,
    pub vset: ValidatorSet,
    /// The seeds of the validators' signing keys. Keys cannot be copied, so the
    /// table of keys is made anew for each height.
    pub seeds: BTreeMap<u64, [u8; 32]>,
    /// One certificate per committed height, in order.
    pub certs: Vec<Commit>,
}

/// What certificates hold.
pub open spec fn certs_view(cs: Seq<Commit>) -> Seq<CommitView> {
    cs.map_values(|c: Commit| c@)
}

/// The seeds of a table, as byte strings.
pub open spec fn seeds_view(m: Map<u64, [u8; 32]>) -> Map<u64, Seq<u8>> {
    m.map_values(|s: [u8; 32]| s@)
}

impl View for ChainDriver {
    type V = DriverView;

    open spec fn view(&self) -> DriverView {
        DriverView {
            chain: self.chain@,
            pool: self.mempool@,
            validators: self.vset@,
            seeds: seeds_view(self.seeds@),
            certs: certs_view(self.certs@),
        }
    }
}

impl ChainDriver {
    /// Whether the pool is in order and the chain is certified.
    pub open spec fn wf(&self) -> bool {
        &&& self.mempool.wf()
        &&& is_certified_chain(self@)
    }

    /// A driver at genesis.
    pub fn new(
        g: Genesis,
        vset: ValidatorSet,
        seeds: BTreeMap<u64, [u8; 32]>,
        max_txs: usize,
    ) -> (r: ChainDriver)
        requires
            state::power_fits(g@),
        ensures
            r.wf(),
            r@ == started(g@, vset@, seeds_view(seeds@), max_txs),
    {
        let r = ChainDriver {
            chain: Chain::new(g),
            mempool: Mempool::new(max_txs),
            vset,
            seeds,
            certs: Vec::new(),
        };
        assert(r@.certs =~= Seq::<CommitView>::empty());
        r
    }

    /// Admits a submission to the pool, after the checks of the present state.
    pub fn submit(&mut self, t: SubmissionTx) -> (r: Result<Digest, ChainError>)
        requires
            old(self).wf(),
        ensures
            final(self).wf(),
            match state::check_tx(old(self)@.chain.state, t@) {
                Err(e) => {
                    &&& r == Err::<Digest, ChainError>(e)
                    &&& final(self)@ == old(self)@
                },
                Ok(()) => {
                    &&& r == Ok::<Digest, ChainError>(tx::tx_hash(t@))
                    &&& final(self)@ == (DriverView {
                        pool: PoolView {
                            txs: mempool::added(old(self)@.pool.txs, t@),
                            ..old(self)@.pool
                        },
                        ..old(self)@
                    })
                },
            },
    {
        self.mempool.insert(&self.chain, t)
    }

    /// The height of the chain.
    pub fn height(&self) -> (r: u64)
        ensures
            r == self@.chain.state.height,
    {
        self.chain.state.height
    }

    /// The hash of the last committed block.
    pub fn head(&self) -> (r: Digest)
        ensures
            r == self@.chain.head,
    {
        self.chain.head
    }

    /// The certificates of all committed heights, in order.
    pub fn certificates(&self) -> (r: &[Commit])
        ensures
            certs_view(r@) == self@.certs,
    {
        self.certs.as_slice()
    }

    fn keys(&self) -> (r: BTreeMap<u64, Keypair>)
        ensures
            round::seeds_of(r@) == self@.seeds,
    {
        let ids = sorted_keys(&self.seeds);
        let mut keys: BTreeMap<u64, Keypair> = BTreeMap::new();
        let mut i: usize = 0;
        while i < ids.len()
            invariant
                i <= ids.len(),
                ordered::lists(ids@, self.seeds@.dom()),
                forall|id: u64| #[trigger]
                    keys@.contains_key(id) <==> ids@.take(i as int).contains(id),
                forall|id: u64| #[trigger]
                    keys@.contains_key(id) ==> keys@[id]@ == self.seeds@[id]@,
            decreases ids.len() - i,
        {
            let id: u64 = ids[i];
            assert(ids@.contains(id));
            let ghost before = keys@;
            match self.seeds.get(&id) {
                Some(seed) => {
                    keys.insert(id, Keypair::from_seed(*seed));
                },
                None => {
                    assert(false);
                },
            }
            assert forall|k: u64| #[trigger] keys@.contains_key(k) <==> ids@.take(
                i + 1,
            ).contains(k) by {
                let old_ids = ids@.take(i as int);
                let new_ids = ids@.take(i + 1);
                if old_ids.contains(k) {
                    let j = choose|j: int| 0 <= j < old_ids.len() && old_ids[j] == k;
                    assert(new_ids[j] == k);
                }
                if new_ids.contains(k) && k != id {
                    let j = choose|j: int| 0 <= j < new_ids.len() && new_ids[j] == k;
                    assert(old_ids[j] == k);
                }
                assert(new_ids[i as int] == id);
                assert(before.contains_key(k) <==> old_ids.contains(k));
            }
            i += 1;
        }
        assert(ids@.take(i as int) =~= ids@);
        assert(round::seeds_of(keys@) =~= self@.seeds) by {
            assert forall|id: u64| keys@.contains_key(id) <==> self.seeds@.contains_key(id) by {
                assert(keys@.contains_key(id) <==> ids@.contains(id));
            }
        }
        keys
    }

    /// Builds the next block from the pool and runs one vote over it. `silent` names
    /// the validators that are offline.
    ///
    /// No block to build gives `None`. A finalized block is committed, and its
    /// certificate kept and returned. On an error nothing has changed. A certificate
    /// fails only where a voting key is not its validator's; so with matching keys
    /// and a quorum awake there is no error.
    pub fn produce<F: Fn(&Assessment) -> u32>(
        &mut self,
        engine: &F,
        timestamp_days: u32,
        silent: &BTreeSet<u64>,
    ) -> (r: Result<Option<Commit>, DriverError>)
        requires
            graph::is_function(*engine),
            old(self).wf(),
        ensures
            final(self).wf(),
            match produced(graph::judge(*engine), old(self)@, timestamp_days, silent@) {
                Err(e) => {
                    &&& r matches Err(x) && x == e
                    &&& final(self)@ == old(self)@
                },
                Ok(None) => {
                    &&& r matches Ok(None)
                    &&& final(self)@ == old(self)@
                },
                Ok(Some((next, cert))) => {
                    &&& r matches Ok(Some(c)) && c@ == cert
                    &&& final(self)@ == next
                },
            },
            round::keys_match(old(self)@.validators, old(self)@.seeds, silent@) ==> !(r matches Err(
                DriverError::BadCertificate { height: _ },
            )),
            round::keys_match(old(self)@.validators, old(self)@.seeds, silent@)
                && round::can_finalize(old(self)@.validators, old(self)@.seeds, silent@) ==> r is Ok,
    {
        let ghost judge = graph::judge(*engine);
        let ghost start = self@;
        let candidate = match self.mempool.build_block(engine, &self.chain, timestamp_days) {
            Some(b) => b,
            None => {
                return Ok(None);
            },
        };
        let height: u64 = candidate.height;
        let sim = Sim::new(self.vset.clone(), self.keys(), height, candidate.clone(), silent);
        let decisions = sim.run();
        proof {
            use_type_invariant(&self.vset);
            if round::can_finalize(start.validators, start.seeds, silent@) {
                assert(start.validators =~= start.validators.take(start.validators.len() as int));
                lemma_someone_decides(
                    start.validators,
                    start.validators,
                    start.seeds,
                    silent@,
                );
                if round::keys_match(start.validators, start.seeds, silent@) {
                    round::law_certificate_verifies(
                        start.validators,
                        start.seeds,
                        silent@,
                        height,
                        tx::block_hash(candidate@),
                    );
                }
            }
        }
        let ids = sorted_keys(&decisions);
        if ids.len() == 0 {
            assert(forall|id: u64| !decisions@.contains_key(id)) by {
                assert forall|id: u64| !decisions@.contains_key(id) by {
                    assert(!ids@.contains(id));
                }
            }
            return Err(DriverError::ConsensusStalled { height });
        }
        assert(ids@.contains(ids@[0]));
        let commit = match decisions.get(&ids[0]) {
            Some(c) => c.clone(),
            None => {
                return Err(DriverError::ConsensusStalled { height });
            },
        };
        let verdict = commit.verify(&self.vset);
        if verdict.is_err() || !same_bytes(&commit.block_hash, &candidate.hash()) {
            return Err(DriverError::BadCertificate { height });
        }
        proof {
            mempool::law_built_block_commits(judge, start.pool, start.chain, timestamp_days);
            law_produced_stays_certified(judge, start, timestamp_days, silent@);
        }
        match self.apply(engine, &candidate) {
            Ok(()) => {},
            Err(e) => {
                return Err(e);
            },
        }
        let ghost certs = certs_view(self.certs@);
        self.certs.push(commit.clone());
        assert(certs_view(self.certs@) =~= certs.push(commit@));
        Ok(Some(commit))
    }

    fn apply<F: Fn(&Assessment) -> u32>(&mut self, engine: &F, b: &Block) -> (r: Result<
        (),
        DriverError,
    >)
        requires
            graph::is_function(*engine),
            old(self).mempool.wf(),
        ensures
            final(self).mempool.wf(),
            match chain::committed(graph::judge(*engine), old(self)@.chain, b@) {
                Err(e) => {
                    &&& r == Err::<(), DriverError>(DriverError::Apply(e))
                    &&& final(self)@ == old(self)@
                },
                Ok((grown, _)) => {
                    &&& r is Ok
                    &&& final(self)@ == (DriverView {
                        chain: grown,
                        pool: PoolView {
                            txs: mempool::without(old(self)@.pool.txs, b@.txs),
                            ..old(self)@.pool
                        },
                        ..old(self)@
                    })
                },
            },
    {
        match self.chain.commit(engine, b) {
            Ok(_) => {},
            Err(e) => {
                return Err(DriverError::Apply(e));
            },
        }
        self.mempool.remove_included(b);
        Ok(())
    }

    /// Produces heights a day apart, with nobody silent, until the pool yields no
    /// block or `max_heights` are committed. Returns how many were.
    pub fn produce_until_drained<F: Fn(&Assessment) -> u32>(
        &mut self,
        engine: &F,
        timestamp_days: u32,
        max_heights: usize,
    ) -> (r: Result<usize, DriverError>)
        requires
            graph::is_function(*engine),
            old(self).wf(),
        ensures
            final(self).wf(),
            (final(self)@, r) == drained(
                graph::judge(*engine),
                old(self)@,
                timestamp_days,
                0,
                max_heights as nat,
            ),
    {
        let ghost judge = graph::judge(*engine);
        let nobody: BTreeSet<u64> = BTreeSet::new();
        let mut n: usize = 0;
        while n < max_heights
            invariant
                n <= max_heights,
                self.wf(),
                graph::is_function(*engine),
                judge == graph::judge(*engine),
                nobody@ == Set::<u64>::empty(),
                drained(judge, old(self)@, timestamp_days, 0, max_heights as nat) == drained(
                    judge,
                    self@,
                    timestamp_days,
                    n as nat,
                    max_heights as nat,
                ),
            decreases max_heights - n,
        {
            match self.produce(engine, later(timestamp_days, n), &nobody) {
                Ok(Some(_)) => {
                    n += 1;
                },
                Ok(None) => {
                    return Ok(n);
                },
                Err(e) => {
                    return Err(e);
                },
            }
        }
        Ok(n)
    }
}

} // verus!
