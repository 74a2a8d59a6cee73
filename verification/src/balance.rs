//! The balance table: an association sequence from account name to amount,
//! with unique keys, and the credit/debit operations the ledger is built on.
use vstd::prelude::*;
use crate::tx::Account;

verus! {

/// The mathematical form of the balance table.
pub type BalSeq = Seq<(Seq<char>, u64)>;

pub open spec fn bals_view(s: Seq<(Account, u64)>) -> BalSeq {
    s.map_values(|p: (Account, u64)| (p.0@, p.1))
}

pub open spec fn keys_unique(b: BalSeq) -> bool {
    forall|i: int, j: int| 0 <= i < j < b.len() ==> (#[trigger] b[i]).0 != (#[trigger] b[j]).0
}

pub open spec fn has_key(b: BalSeq, k: Seq<char>) -> bool {
    exists|i: int| 0 <= i <= b.len() - 1 && (#[trigger] b[i]).0 == k
}

/// The balance of an account: its first entry, or 0 when it has none.
pub open spec fn bal_of(b: BalSeq, k: Seq<char>) -> u64
    decreases b.len(),
{
    if b.len() == 0 {
        0
    } else if b[0].0 == k {
        b[0].1
    } else {
        bal_of(b.drop_first(), k)
    }
}

/// Adds `v` to the account's first entry, creating the entry when absent.
pub open spec fn credit(b: BalSeq, k: Seq<char>, v: u64) -> BalSeq
    decreases b.len(),
{
    if b.len() == 0 {
        seq![(k, v)]
    } else if b[0].0 == k {
        seq![(b[0].0, (b[0].1 + v) as u64)] + b.drop_first()
    } else {
        seq![b[0]] + credit(b.drop_first(), k, v)
    }
}

/// Subtracts `v` from the account's first entry; an absent account is left
/// absent (only a zero debit can reach it).
pub open spec fn debit(b: BalSeq, k: Seq<char>, v: u64) -> BalSeq
    decreases b.len(),
{
    if b.len() == 0 {
        b
    } else if b[0].0 == k {
        seq![(b[0].0, (b[0].1 - v) as u64)] + b.drop_first()
    } else {
        seq![b[0]] + debit(b.drop_first(), k, v)
    }
}

/// The sum of all balances.
pub open spec fn total(b: BalSeq) -> int
    decreases b.len(),
{
    if b.len() == 0 {
        0
    } else {
        b[0].1 + total(b.drop_first())
    }
}

/// Debiting moves the debited account down by `v` and no other.
pub proof fn lemma_bal_debit(b: BalSeq, k: Seq<char>, v: u64, k2: Seq<char>)
    requires
        v <= bal_of(b, k),
    ensures
        k2 == k ==> bal_of(debit(b, k, v), k2) == (bal_of(b, k) - v) as u64,
        k2 != k ==> bal_of(debit(b, k, v), k2) == bal_of(b, k2),
    decreases b.len(),
{
    if b.len() == 0 {
    } else if b[0].0 == k {
        assert(debit(b, k, v).drop_first() =~= b.drop_first());
    } else {
        lemma_bal_debit(b.drop_first(), k, v, k2);
        assert(debit(b, k, v).drop_first() =~= debit(b.drop_first(), k, v));
    }
}

/// A credit that fits raises the sum of all balances by exactly `v`.
pub proof fn lemma_total_credit(b: BalSeq, k: Seq<char>, v: u64)
    requires
        bal_of(b, k) + v <= u64::MAX,
    ensures
        total(credit(b, k, v)) == total(b) + v,
    decreases b.len(),
{
    if b.len() == 0 {
        assert(credit(b, k, v).drop_first() =~= Seq::<(Seq<char>, u64)>::empty());
        assert(total(Seq::<(Seq<char>, u64)>::empty()) == 0);
    } else if b[0].0 == k {
        assert(credit(b, k, v).drop_first() =~= b.drop_first());
    } else {
        lemma_total_credit(b.drop_first(), k, v);
        assert(credit(b, k, v).drop_first() =~= credit(b.drop_first(), k, v));
    }
}

/// A covered debit lowers the sum of all balances by exactly `v`.
pub proof fn lemma_total_debit(b: BalSeq, k: Seq<char>, v: u64)
    requires
        v <= bal_of(b, k),
    ensures
        total(debit(b, k, v)) == total(b) - v,
    decreases b.len(),
{
    if b.len() == 0 {
    } else if b[0].0 == k {
        assert(debit(b, k, v).drop_first() =~= b.drop_first());
    } else {
        lemma_total_debit(b.drop_first(), k, v);
        assert(debit(b, k, v).drop_first() =~= debit(b.drop_first(), k, v));
    }
}

/// When the first entry of `k` stands at `i`, crediting updates that entry.
proof fn lemma_credit_first_match(b: BalSeq, k: Seq<char>, v: u64, i: int)
    requires
        0 <= i < b.len(),
        b[i].0 == k,
        forall|j: int| 0 <= j < i ==> (#[trigger] b[j]).0 != k,
    ensures
        credit(b, k, v) == b.update(i, (b[i].0, (b[i].1 + v) as u64)),
    decreases i,
{
    if i == 0 {
        assert(credit(b, k, v) =~= b.update(0, (b[0].0, (b[0].1 + v) as u64)));
    } else {
        assert(b[0].0 != k);
        lemma_credit_first_match(b.drop_first(), k, v, i - 1);
        assert(credit(b, k, v) =~= b.update(i, (b[i].0, (b[i].1 + v) as u64)));
    }
}

/// When `k` has no entry, crediting appends one.
proof fn lemma_credit_no_match(b: BalSeq, k: Seq<char>, v: u64)
    requires
        forall|j: int| 0 <= j < b.len() ==> (#[trigger] b[j]).0 != k,
    ensures
        credit(b, k, v) == b.push((k, v)),
    decreases b.len(),
{
    if b.len() == 0 {
        assert(credit(b, k, v) =~= b.push((k, v)));
    } else {
        lemma_credit_no_match(b.drop_first(), k, v);
        assert(credit(b, k, v) =~= b.push((k, v)));
    }
}

/// When the first entry of `k` stands at `i`, debiting updates that entry.
proof fn lemma_debit_first_match(b: BalSeq, k: Seq<char>, v: u64, i: int)
    requires
        0 <= i < b.len(),
        b[i].0 == k,
        forall|j: int| 0 <= j < i ==> (#[trigger] b[j]).0 != k,
    ensures
        debit(b, k, v) == b.update(i, (b[i].0, (b[i].1 - v) as u64)),
    decreases i,
{
    if i == 0 {
        assert(debit(b, k, v) =~= b.update(0, (b[0].0, (b[0].1 - v) as u64)));
    } else {
        assert(b[0].0 != k);
        lemma_debit_first_match(b.drop_first(), k, v, i - 1);
        assert(debit(b, k, v) =~= b.update(i, (b[i].0, (b[i].1 - v) as u64)));
    }
}

/// When `k` has no entry, debiting changes nothing.
proof fn lemma_debit_no_match(b: BalSeq, k: Seq<char>, v: u64)
    requires
        forall|j: int| 0 <= j < b.len() ==> (#[trigger] b[j]).0 != k,
    ensures
        debit(b, k, v) == b,
    decreases b.len(),
{
    if b.len() == 0 {
        assert(debit(b, k, v) =~= b);
    } else {
        lemma_debit_no_match(b.drop_first(), k, v);
        assert(debit(b, k, v) =~= b);
    }
}

/// The first entry of `k` gives its balance.
proof fn lemma_bal_of_first_match(b: BalSeq, k: Seq<char>, i: int)
    requires
        0 <= i < b.len(),
        b[i].0 == k,
        forall|j: int| 0 <= j < i ==> (#[trigger] b[j]).0 != k,
    ensures
        bal_of(b, k) == b[i].1,
    decreases i,
{
    if i > 0 {
        assert(b[0].0 != k);
        lemma_bal_of_first_match(b.drop_first(), k, i - 1);
    }
}

/// An account with no entry has balance 0.
proof fn lemma_bal_of_no_match(b: BalSeq, k: Seq<char>)
    requires
        forall|j: int| 0 <= j < b.len() ==> (#[trigger] b[j]).0 != k,
    ensures
        bal_of(b, k) == 0,
    decreases b.len(),
{
    if b.len() > 0 {
        lemma_bal_of_no_match(b.drop_first(), k);
    }
}

/// Reads an account's balance out of the table.
pub fn balance_of(bals: &Vec<(Account, u64)>, name: &String) -> (r: u64)
    ensures
        r == bal_of(bals_view(bals@), name@),
{
    let ghost bv = bals_view(bals@);
    let n = bals.len();
    let mut i: usize = 0;
    while i < n
        invariant
            n == bals@.len(),
            i <= n,
            bv == bals_view(bals@),
            forall|j: int| 0 <= j < i ==> (#[trigger] bv[j]).0 != name@,
        decreases n - i,
    {
        if bals[i].0.0 == *name {
            proof {
                lemma_bal_of_first_match(bv, name@, i as int);
            }
            return bals[i].1;
        }
        i = i + 1;
    }
    proof {
        lemma_bal_of_no_match(bv, name@);
    }
    0
}

/// Credits an account in place; `false` (and no change) when the new balance
/// would not fit in 64 bits.
pub fn credit_balance(bals: &mut Vec<(Account, u64)>, name: &Account, v: u64) -> (r: bool)
    requires
        keys_unique(bals_view(old(bals)@)),
    ensures
        r == (bal_of(bals_view(old(bals)@), name@) + v <= u64::MAX),
        r ==> bals_view(final(bals)@) == credit(bals_view(old(bals)@), name@, v),
        !r ==> final(bals)@ == old(bals)@,
        keys_unique(bals_view(final(bals)@)),
{
    let ghost b0 = bals_view(old(bals)@);
    let n = bals.len();
    let mut i: usize = 0;
    while i < n
        invariant
            n == bals@.len(),
            i <= n,
            bals@ == old(bals)@,
            b0 == bals_view(bals@),
            keys_unique(b0),
            forall|j: int| 0 <= j < i ==> (#[trigger] b0[j]).0 != name@,
        decreases n - i,
    {
        if bals[i].0.0 == name.0 {
            proof {
                lemma_bal_of_first_match(b0, name@, i as int);
            }
            let cur = bals[i].1;
            if v > u64::MAX - cur {
                return false;
            }
            bals[i].1 = cur + v;
            proof {
                lemma_credit_first_match(b0, name@, v, i as int);
                assert(bals_view(bals@) =~= b0.update(i as int, (b0[i as int].0, (cur + v) as u64)));
                assert(bals_view(bals@) == credit(b0, name@, v));
            }
            return true;
        }
        i = i + 1;
    }
    proof {
        lemma_bal_of_no_match(b0, name@);
    }
    bals.push((name.clone(), v));
    proof {
        lemma_credit_no_match(b0, name@, v);
        assert(bals_view(bals@) =~= b0.push((name@, v)));
    }
    true
}

/// Debits an account in place; the caller must have checked cover.
pub fn debit_balance(bals: &mut Vec<(Account, u64)>, name: &String, v: u64)
    requires
        keys_unique(bals_view(old(bals)@)),
        v <= bal_of(bals_view(old(bals)@), name@),
    ensures
        bals_view(final(bals)@) == debit(bals_view(old(bals)@), name@, v),
        keys_unique(bals_view(final(bals)@)),
{
    let ghost b0 = bals_view(old(bals)@);
    let n = bals.len();
    let mut i: usize = 0;
    while i < n
        invariant
            n == bals@.len(),
            i <= n,
            bals@ == old(bals)@,
            b0 == bals_view(bals@),
            keys_unique(b0),
            v <= bal_of(b0, name@),
            forall|j: int| 0 <= j < i ==> (#[trigger] b0[j]).0 != name@,
        decreases n - i,
    {
        if bals[i].0.0 == *name {
            proof {
                lemma_bal_of_first_match(b0, name@, i as int);
            }
            let cur = bals[i].1;
            bals[i].1 = cur - v;
            proof {
                lemma_debit_first_match(b0, name@, v, i as int);
                assert(bals_view(bals@) =~= b0.update(i as int, (b0[i as int].0, (cur - v) as u64)));
                assert(bals_view(bals@) == debit(b0, name@, v));
            }
            return ;
        }
        i = i + 1;
    }
    proof {
        lemma_bal_of_no_match(b0, name@);
        lemma_debit_no_match(b0, name@, v);
    }
}


/// Whether the table holds an entry for this account.
pub fn contains_key(bals: &Vec<(Account, u64)>, name: &String) -> (r: bool)
    ensures
        r == has_key(bals_view(bals@), name@),
{
    let ghost bv = bals_view(bals@);
    let n = bals.len();
    let mut i: usize = 0;
    while i < n
        invariant
            n == bals@.len(),
            i <= n,
            bv == bals_view(bals@),
            forall|j: int| 0 <= j < i ==> (#[trigger] bv[j]).0 != name@,
        decreases n - i,
    {
        if bals[i].0.0 == *name {
            proof {
                assert(bv[i as int].0 == name@);
            }
            return true;
        }
        i = i + 1;
    }
    proof {
        assert(!has_key(bv, name@));
    }
    false
}

} // verus!
