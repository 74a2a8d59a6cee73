//! The read-only surface handed to front ends: a snapshot of every balance
//! together with the chain tip in hex.
use vstd::prelude::*;
use crate::balance::BalSeq;
use crate::hash::hex_of;
use crate::states::State;
use crate::tx::Account;

verus! {

/// One account's balance in a snapshot.
#[derive(Debug)]
pub struct BalanceResponse {
    pub account: Account,
    pub amount: u64,
}

/// A read-only snapshot of the ledger: the chain tip in hex and every
/// account's balance.
#[derive(Debug)]
pub struct StateResponse {
    pub latest_blockhash: String,
    pub balances: Vec<BalanceResponse>,
}

pub open spec fn resp_view(s: Seq<BalanceResponse>) -> BalSeq {
    s.map_values(|b: BalanceResponse| (b.account@, b.amount))
}

/// Snapshots the ledger's balances, entry for entry, with the tip in hex.
pub fn list_balances(state: &State) -> (r: StateResponse)
    ensures
        r.latest_blockhash@ == hex_of(state@.latest),
        resp_view(r.balances@) == state@.balances,
{
    let mut out: Vec<BalanceResponse> = Vec::new();
    let n = state.balances.len();
    let mut i: usize = 0;
    proof {
        assert(resp_view(out@) =~= state@.balances.subrange(0, 0));
    }
    while i < n
        invariant
            i <= n,
            n == state.balances@.len(),
            resp_view(out@) == state@.balances.subrange(0, i as int),
        decreases n - i,
    {
        let ghost pre = resp_view(out@);
        out.push(
            BalanceResponse { account: state.balances[i].0.clone(), amount: state.balances[i].1 },
        );
        proof {
            assert(resp_view(out@) =~= pre.push(state@.balances[i as int]));
            assert(state@.balances.subrange(0, i + 1) =~= pre.push(state@.balances[i as int]));
        }
        i = i + 1;
    }
    proof {
        assert(state@.balances.subrange(0, n as int) =~= state@.balances);
    }
    StateResponse { latest_blockhash: state.hash_to_hex(), balances: out }
}

} // verus!
