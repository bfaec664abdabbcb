//! Conservation of supply: every micro-unit is in a balance or in the treasury.

use vstd::prelude::*;

use crate::graph::Judge;
use crate::ordered;
use crate::ordered::sorted_keys;
use crate::state;
use crate::state::{Account, ChainState, GenesisView, StateView};
use crate::tx::{BlockView, TxView};
use crate::PubKey;

verus! {

/// The sum of all balances.
pub open spec fn held(accounts: Map<u64, Account>) -> nat
    decreases accounts.dom().len(),
{
    if !accounts.dom().finite() || accounts.dom().len() == 0 {
        0
    } else {
        let id = accounts.dom().choose();
        accounts[id].balance as nat + held(accounts.remove(id))
    }
}

/// Whether the supply is exactly what the accounts and the treasury hold.
pub open spec fn conserved(st: StateView) -> bool {
    held(st.accounts) + st.treasury == st.supply
}

/// Any account may be counted first.
pub proof fn lemma_held_remove(accounts: Map<u64, Account>, id: u64)
    requires
        accounts.dom().finite(),
        accounts.contains_key(id),
    ensures
        held(accounts) == accounts[id].balance + held(accounts.remove(id)),
    decreases accounts.dom().len(),
{
    let c = accounts.dom().choose();
    if c != id {
        lemma_held_remove(accounts.remove(c), id);
        lemma_held_remove(accounts.remove(id), c);
        assert(accounts.remove(c).remove(id) =~= accounts.remove(id).remove(c));
    }
}

/// Changing one account changes the sum by the difference of its balances.
pub proof fn lemma_held_insert(accounts: Map<u64, Account>, id: u64, a: Account)
    requires
        accounts.dom().finite(),
    ensures
        held(accounts.insert(id, a)) == a.balance + held(accounts.remove(id)),
{
    lemma_held_remove(accounts.insert(id, a), id);
    assert(accounts.insert(id, a).remove(id) =~= accounts.remove(id));
}

/// Settling a submission conserves the supply.
pub proof fn law_settling_conserves(st: StateView, t: TxView, dk: u32)
    requires
        st.accounts.dom().finite(),
        conserved(st),
        st.accounts.contains_key(t.author),
        st.accounts[t.author].balance >= t.stake,
    ensures
        state::settled(st, t, dk) matches Ok((after, _)) ==> {
            &&& after.accounts.dom() == st.accounts.dom()
            &&& conserved(after)
        },
{
    if let Ok((after, _)) = state::settled(st, t, dk) {
        lemma_held_remove(st.accounts, t.author);
        lemma_held_insert(st.accounts, t.author, after.accounts[t.author]);
        assert(after.accounts.dom() =~= st.accounts.dom());
    }
}

/// A submission conserves the supply, and no account appears or disappears.
pub proof fn law_tx_conserves(judge: Judge, st: StateView, t: TxView)
    requires
        st.accounts.dom().finite(),
        conserved(st),
    ensures
        state::applied_tx(judge, st, t) matches Ok((after, _)) ==> {
            &&& after.accounts.dom() == st.accounts.dom()
            &&& conserved(after)
        },
{
    if state::check_tx(st, t) is Ok {
        law_settling_conserves(st, t, judge(state::question(st, t)));
    }
}

/// Any run of submissions conserves the supply.
pub proof fn law_txs_conserve(judge: Judge, st: StateView, txs: Seq<TxView>)
    requires
        st.accounts.dom().finite(),
        conserved(st),
    ensures
        state::applied_txs(judge, st, txs) matches Ok((after, _)) ==> {
            &&& after.accounts.dom() == st.accounts.dom()
            &&& conserved(after)
        },
    decreases txs.len(),
{
    if txs.len() > 0 {
        law_txs_conserve(judge, st, txs.drop_last());
        if let Ok((before, _)) = state::applied_txs(judge, st, txs.drop_last()) {
            law_tx_conserves(judge, before, txs.last());
        }
    }
}

/// A block conserves the supply.
pub proof fn law_block_conserves(judge: Judge, st: StateView, b: BlockView)
    requires
        st.accounts.dom().finite(),
        conserved(st),
    ensures
        state::applied_block(judge, st, b) matches Ok((after, _)) ==> {
            &&& after.accounts.dom() == st.accounts.dom()
            &&& conserved(after)
        },
{
    law_txs_conserve(judge, StateView { now_days: b.timestamp_days, ..st }, b.txs);
}

proof fn lemma_endowed(list: Seq<(u64, u64, PubKey)>)
    ensures
        state::endowed(list).dom().finite(),
    decreases list.len(),
{
    if list.len() > 0 {
        lemma_endowed(list.drop_last());
    } else {
        assert(Map::<u64, Account>::empty().dom() =~= Set::empty());
    }
}

/// A genesis whose accounts hold no more than fits a 64-bit word starts with its
/// supply conserved.
pub proof fn law_genesis_conserves(g: GenesisView)
    requires
        state::endowment(g.accounts) <= u64::MAX,
    ensures
        state::genesis_state(g).accounts.dom().finite(),
        conserved(state::genesis_state(g)),
{
    lemma_endowed(g.accounts);
}

/// The accounts among the first `i` of a list of ids.
spec fn first_of(accounts: Map<u64, Account>, ids: Seq<u64>, i: int) -> Map<u64, Account> {
    accounts.restrict(ids.take(i).to_set())
}

proof fn lemma_next_of(accounts: Map<u64, Account>, ids: Seq<u64>, i: int)
    requires
        ordered::lists(ids, accounts.dom()),
        0 <= i < ids.len(),
    ensures
        accounts.contains_key(ids[i]),
        held(first_of(accounts, ids, i + 1)) == accounts[ids[i]].balance + held(
            first_of(accounts, ids, i),
        ),
{
    let small = first_of(accounts, ids, i);
    let id = ids[i];
    assert(ids.contains(id));
    ids.take(i).unique_seq_to_set();
    assert(ids.take(i).to_set().finite());
    assert(small.dom() =~= accounts.dom().intersect(ids.take(i).to_set()));
    assert(!small.contains_key(id)) by {
        if ids.take(i).contains(id) {
            let j = choose|j: int| 0 <= j < i && ids.take(i)[j] == id;
            assert(ids[j] == id);
        }
    }
    lemma_held_insert(small, id, accounts[id]);
    assert(small.remove(id) =~= small);
    assert(ids.take(i + 1) =~= ids.take(i).push(id));
    assert forall|k: u64| ids.take(i + 1).contains(k) <==> ids.take(i).contains(k) || k == id by {
        if ids.take(i).contains(k) {
            let j = choose|j: int| 0 <= j < i && ids.take(i)[j] == k;
            assert(ids.take(i + 1)[j] == k);
        }
        if k == id {
            assert(ids.take(i + 1)[i] == k);
        }
    }
    assert(first_of(accounts, ids, i + 1) =~= small.insert(id, accounts[id]));
}

impl ChainState {
    /// Whether every micro-unit is in a balance or in the treasury. Escrow is always
    /// resolved within a submission, so this holds after any sequence of blocks.
    pub fn supply_conserved(&self) -> (r: bool)
        ensures
            r == conserved(self@),
    {
        let ids = sorted_keys(&self.accounts);
        let mut sum: u128 = 0;
        let mut i: usize = 0;
        proof {
            assert(first_of(self@.accounts, ids@, 0).dom() =~= Set::empty());
        }
        while i < ids.len()
            invariant
                i <= ids.len(),
                ordered::lists(ids@, self@.accounts.dom()),
                sum == held(first_of(self@.accounts, ids@, i as int)),
                sum <= i * 0xffff_ffff_ffff_ffff,
            decreases ids.len() - i,
        {
            proof {
                lemma_next_of(self@.accounts, ids@, i as int);
                assert(i * 0xffff_ffff_ffff_ffff <= 0xffff_ffff_ffff_fffe * 0xffff_ffff_ffff_ffff)
                    by (nonlinear_arith)
                    requires
                        0 <= i <= 0xffff_ffff_ffff_fffe,
                ;
            }
            match self.accounts.get(&ids[i]) {
                Some(a) => {
                    sum = sum + a.balance as u128;
                },
                None => {
                    assert(false);
                },
            }
            i += 1;
        }
        proof {
            assert(ids@.take(i as int) =~= ids@);
            assert(first_of(self@.accounts, ids@, i as int) =~= self@.accounts) by {
                assert forall|k: u64| self@.accounts.contains_key(k) implies ids@.to_set().contains(
                    k,
                ) by {
                    assert(ids@.contains(k));
                }
            }
            assert(i * 0xffff_ffff_ffff_ffff <= 0xffff_ffff_ffff_ffff * 0xffff_ffff_ffff_ffff)
                by (nonlinear_arith)
                requires
                    0 <= i <= 0xffff_ffff_ffff_ffff,
            ;
        }
        sum + self.treasury as u128 == self.supply as u128
    }
}

} // verus!
