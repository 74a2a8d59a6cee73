//! The ledger's global properties, stated over whole runs: conservation of
//! value, determinism of disk replay, and the integrity of the hash chain.
use vstd::prelude::*;
use crate::balance::{bal_of, total, BalSeq, lemma_total_credit, lemma_total_debit};
use crate::block::{sha256_str_of, BlockV};
use crate::codec::block_json;
use crate::hash::{hex_bytes, hex_of, lemma_hex_of_all_hex, lemma_hex_of_len, lemma_hex_roundtrip};
use crate::block::RecordV;
use crate::states::{
    apply_bals, apply_ok, block_of, persist_post, rec_ok, record_of, replay_bals, replay_ok,
    replay_rec, replay_records, replay_txs_ok, reward_bals, StateV,
};
use crate::tx::TxV;

verus! {

/// A clean application moves the sum of all balances by exactly the value a
/// reward mints, and not at all otherwise: the reward credit adds the value
/// once, and the debit-credit cycle of the transfer cancels out.
pub proof fn lemma_apply_total(b: BalSeq, t: TxV)
    requires
        apply_ok(b, t),
    ensures
        total(apply_bals(b, t)) == total(b) + if t.is_reward() {
            t.value as int
        } else {
            0
        },
{
    let b1 = reward_bals(b, t);
    if t.is_reward() {
        lemma_total_credit(b, t.to, t.value);
    }
    lemma_total_debit(b1, t.from, t.value);
    let b2 = crate::balance::debit(b1, t.from, t.value);
    lemma_total_credit(b2, t.to, t.value);
}

/// Conservation: a sequence of non-reward transactions, each applying
/// cleanly in order, leaves the sum of all balances unchanged.
pub proof fn lemma_conservation(b: BalSeq, txs: Seq<TxV>)
    requires
        replay_txs_ok(b, txs),
        forall|i: int| 0 <= i < txs.len() ==> !(#[trigger] txs[i]).is_reward(),
    ensures
        total(replay_bals(b, txs)) == total(b),
    decreases txs.len(),
{
    if txs.len() > 0 {
        lemma_apply_total(b, txs[0]);
        assert(!txs[0].is_reward());
        assert(forall|i: int|
            0 <= i < txs.drop_first().len() ==> !(#[trigger] txs.drop_first()[i]).is_reward());
        lemma_conservation(apply_bals(b, txs[0]), txs.drop_first());
    }
}

/// One submission: the transaction's balance effect, the queue grown by one,
/// the tip and height untouched (submit applies against the current tip, so
/// the tip cannot move).
pub open spec fn submit_one(s: StateV, t: TxV) -> StateV {
    StateV {
        balances: apply_bals(s.balances, t),
        pending: s.pending.push(t),
        latest: s.latest,
        height: s.height,
    }
}

/// The state after submitting a sequence of transactions in order.
pub open spec fn submit_all(s: StateV, txs: Seq<TxV>) -> StateV
    decreases txs.len(),
{
    if txs.len() == 0 {
        s
    } else {
        submit_all(submit_one(s, txs[0]), txs.drop_first())
    }
}

/// Whether every submission of the sequence succeeds in order.
pub open spec fn submit_ok(s: StateV, txs: Seq<TxV>) -> bool
    decreases txs.len(),
{
    txs.len() == 0 || (apply_ok(s.balances, txs[0]) && submit_ok(submit_one(s, txs[0]), txs.drop_first()))
}

pub proof fn lemma_submit_all(s: StateV, txs: Seq<TxV>)
    ensures
        submit_all(s, txs).balances == replay_bals(s.balances, txs),
        submit_all(s, txs).pending == s.pending + txs,
        submit_all(s, txs).latest == s.latest,
        submit_all(s, txs).height == s.height,
        submit_ok(s, txs) == replay_txs_ok(s.balances, txs),
    decreases txs.len(),
{
    if txs.len() == 0 {
        assert(s.pending + txs =~= s.pending);
    } else {
        lemma_submit_all(submit_one(s, txs[0]), txs.drop_first());
        assert(s.pending.push(txs[0]) + txs.drop_first() =~= s.pending + txs);
    }
}

/// One round of use: submit a batch, then persist it at some wall-clock
/// time.
pub open spec fn run_step(s: StateV, round: (Seq<TxV>, u64)) -> StateV {
    persist_post(submit_all(s, round.0), round.1)
}

/// The in-memory state after a sequence of submit-then-persist rounds.
pub open spec fn run_rounds(s: StateV, rounds: Seq<(Seq<TxV>, u64)>) -> StateV
    decreases rounds.len(),
{
    if rounds.len() == 0 {
        s
    } else {
        run_rounds(run_step(s, rounds[0]), rounds.drop_first())
    }
}

/// Whether every submission succeeds and no height overflows along the run.
pub open spec fn run_ok(s: StateV, rounds: Seq<(Seq<TxV>, u64)>) -> bool
    decreases rounds.len(),
{
    rounds.len() == 0 || (submit_ok(s, rounds[0].0) && s.height < u64::MAX && run_ok(
        run_step(s, rounds[0]),
        rounds.drop_first(),
    ))
}

/// The block records the run's persist calls append to the log, in order.
pub open spec fn records_of_run(s: StateV, rounds: Seq<(Seq<TxV>, u64)>) -> Seq<RecordV>
    decreases rounds.len(),
{
    if rounds.len() == 0 {
        Seq::empty()
    } else {
        seq![record_of(submit_all(s, rounds[0].0), rounds[0].1)] + records_of_run(
            run_step(s, rounds[0]),
            rounds.drop_first(),
        )
    }
}

/// Replaying the one record a round persists reproduces the round's end
/// state, provided the round carried at least one transaction (replay takes
/// the tip from the hash context of the transactions it applies, so a
/// transactionless block moves the height but not the tip).
proof fn lemma_replay_one_round(s: StateV, txs: Seq<TxV>, time: u64)
    requires
        s.pending == Seq::<TxV>::empty(),
        submit_ok(s, txs),
        txs.len() > 0,
        s.height < u64::MAX,
        forall|b: BlockV| (#[trigger] sha256_str_of(block_json(b))).len() == 32,
    ensures
        rec_ok(s, record_of(submit_all(s, txs), time)),
        replay_rec(s, record_of(submit_all(s, txs), time)) == run_step(s, (txs, time)),
{
    lemma_submit_all(s, txs);
    let s1 = submit_all(s, txs);
    assert(s1.pending =~= txs);
    let bv = block_of(s1, time);
    let digest = sha256_str_of(block_json(bv));
    assert(digest.len() == 32);
    lemma_hex_of_len(digest);
    lemma_hex_of_all_hex(digest);
    lemma_hex_roundtrip(digest);
    let rec = record_of(s1, time);
    assert(rec.block.txs == txs);
    assert(replay_txs_ok(s.balances, txs));
    assert(rec_ok(s, rec));
    assert(replay_rec(s, rec) == run_step(s, (txs, time)));
}

/// Replay determinism: rebuilding purely from the records a run persisted
/// reproduces the run's balances, chain tip and height exactly, for any run
/// whose blocks each carry at least one transaction.
pub proof fn lemma_replay_determinism(s: StateV, rounds: Seq<(Seq<TxV>, u64)>)
    requires
        s.pending == Seq::<TxV>::empty(),
        run_ok(s, rounds),
        forall|i: int| 0 <= i < rounds.len() ==> (#[trigger] rounds[i]).0.len() > 0,
        forall|b: BlockV| (#[trigger] sha256_str_of(block_json(b))).len() == 32,
    ensures
        replay_ok(s, records_of_run(s, rounds)),
        replay_records(s, records_of_run(s, rounds)) == run_rounds(s, rounds),
    decreases rounds.len(),
{
    if rounds.len() > 0 {
        let round0 = rounds[0];
        let s1 = submit_all(s, round0.0);
        let rec0 = record_of(s1, round0.1);
        let next = run_step(s, round0);
        lemma_replay_one_round(s, round0.0, round0.1);
        assert(next.pending =~= Seq::<TxV>::empty());
        assert(forall|i: int|
            0 <= i < rounds.drop_first().len() ==> (#[trigger] rounds.drop_first()[i]).0.len()
                > 0);
        lemma_replay_determinism(next, rounds.drop_first());
        let recs = records_of_run(s, rounds);
        assert(recs[0] == rec0);
        assert(recs.drop_first() =~= records_of_run(next, rounds.drop_first()));
        assert(replay_rec(s, recs[0]) == next);
        assert(replay_records(s, recs) == replay_records(next, records_of_run(next, rounds.drop_first())));
        assert(replay_ok(s, recs));
    }
}

proof fn lemma_records_len(s: StateV, rounds: Seq<(Seq<TxV>, u64)>)
    ensures
        records_of_run(s, rounds).len() == rounds.len(),
    decreases rounds.len(),
{
    if rounds.len() > 0 {
        lemma_records_len(run_step(s, rounds[0]), rounds.drop_first());
    }
}

/// Hash chain integrity: in the records a run persists, every later record's
/// parent hash is exactly the hash stored by the record before it.
pub proof fn lemma_hash_chain(s: StateV, rounds: Seq<(Seq<TxV>, u64)>, i: int)
    requires
        0 <= i < rounds.len() - 1,
    ensures
        records_of_run(s, rounds)[i + 1].block.header.parent == hex_bytes(
            records_of_run(s, rounds)[i].blockhash,
        ),
    decreases i,
{
    let round0 = rounds[0];
    let s1 = submit_all(s, round0.0);
    let next = run_step(s, round0);
    let recs = records_of_run(s, rounds);
    lemma_records_len(s, rounds);
    lemma_records_len(next, rounds.drop_first());
    assert(recs.drop_first() =~= records_of_run(next, rounds.drop_first()));
    if i == 0 {
        let digest = sha256_str_of(block_json(block_of(s1, round0.1)));
        assert(recs[0].blockhash == hex_of(digest));
        assert(next.latest == digest);
        let round1 = rounds[1];
        lemma_submit_all(next, round1.0);
        assert(rounds.drop_first()[0] == round1);
        assert(recs[1] == record_of(submit_all(next, round1.0), round1.1));
        assert(recs[1].block.header.parent == submit_all(next, round1.0).latest);
        lemma_hex_roundtrip(digest);
    } else {
        lemma_hash_chain(next, rounds.drop_first(), i - 1);
        assert(recs[i + 1] == records_of_run(next, rounds.drop_first())[i]);
        assert(recs[i] == records_of_run(next, rounds.drop_first())[i - 1]);
    }
}

/// No balance is ever negative: every balance the ledger stores or reports
/// is an unsigned 64-bit value, so the property holds of every reachable
/// state by the form of the data alone.
pub proof fn lemma_no_negative_balances(s: StateV)
    ensures
        forall|i: int| 0 <= i < s.balances.len() ==> 0 <= (#[trigger] s.balances[i]).1,
        forall|k: Seq<char>| 0 <= #[trigger] bal_of(s.balances, k),
{
}

} // verus!
