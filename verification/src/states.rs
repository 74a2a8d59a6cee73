//! The balance ledger: current balances, the pending queue and the chain tip,
//! with the transaction-application rules and block persistence.
use vstd::prelude::*;
use crate::balance::{
    bal_of, bals_view, credit, debit, keys_unique, BalSeq, balance_of, credit_balance,
    debit_balance, lemma_bal_debit,
};
use crate::block::{Block, BlockRecord, BlockV, HeaderV, RecordV, txs_view};
use crate::codec::{block_json, record_json};
use crate::hash::{all_hex, hex_bytes, hex_of};
use crate::tx::{Account, Tx, TxV};

verus! {

broadcast use vstd::string::group_string_axioms;

/// A failure of a ledger operation: each variant says exactly which check
/// failed and with what values.
#[derive(Debug)]
pub enum StateError {
    /// The sender's funds do not cover the requested transfer.
    InsufficientBalance { account: String, requested: u64, available: u64 },
    /// A credit would push the account past the largest representable balance.
    BalanceOverflow { account: String },
    /// A hash string held a non-hex character or an odd number of digits.
    HexDecode,
    /// A decoded hash had this many bytes instead of 32.
    InvalidLength(usize),
    /// A log line is not the canonical serialization of any block record.
    MalformedRecord,
}

/// A failure to read the genesis document.
#[derive(Debug)]
pub enum GenesisError {
    /// The document is not a well-formed genesis object.
    Malformed,
}

/// The initial balance snapshot and chain metadata, read once at bootstrap.
#[derive(Debug)]
pub struct Genesis {
    pub genesis_time: String,
    pub chain_id: String,
    pub balances: Vec<(Account, u64)>,
}

/// The mathematical content of a genesis document.
pub struct GenesisV {
    pub genesis_time: Seq<char>,
    pub chain_id: Seq<char>,
    pub balances: BalSeq,
}

impl GenesisV {
    pub open spec fn wf(self) -> bool {
        keys_unique(self.balances)
    }
}

impl View for Genesis {
    type V = GenesisV;

    open spec fn view(&self) -> GenesisV {
        GenesisV {
            genesis_time: self.genesis_time@,
            chain_id: self.chain_id@,
            balances: bals_view(self.balances@),
        }
    }
}

/// The mathematical content of the ledger state.
pub struct StateV {
    pub balances: BalSeq,
    pub pending: Seq<TxV>,
    pub latest: Seq<u8>,
    pub height: u64,
}

impl StateV {
    pub open spec fn wf(self) -> bool {
        keys_unique(self.balances)
    }
}

/// The in-memory ledger: balances, the pending transaction queue, the hash of
/// the most recently persisted block and its height.
#[derive(Debug)]
pub struct State {
    pub balances: Vec<(Account, u64)>,
    pub tx_mempool: Vec<Tx>,
    pub latest_blockhash: crate::hash::Hash,
    pub height: u64,
}

impl View for State {
    type V = StateV;

    open spec fn view(&self) -> StateV {
        StateV {
            balances: bals_view(self.balances@),
            pending: txs_view(self.tx_mempool@),
            latest: self.latest_blockhash@,
            height: self.height,
        }
    }
}

/// The balances after the unconditional reward credit, if any.
pub open spec fn reward_bals(b: BalSeq, tx: TxV) -> BalSeq {
    if tx.is_reward() {
        credit(b, tx.to, tx.value)
    } else {
        b
    }
}

/// Whether the reward credit stays within the 64-bit balance range.
pub open spec fn reward_fits(b: BalSeq, tx: TxV) -> bool {
    tx.is_reward() ==> bal_of(b, tx.to) + tx.value <= u64::MAX
}

/// The funds available to the sender, read after the reward credit.
pub open spec fn avail_of(b: BalSeq, tx: TxV) -> u64 {
    bal_of(reward_bals(b, tx), tx.from)
}

/// Whether the transfer credit stays within the 64-bit balance range.
pub open spec fn transfer_fits(b: BalSeq, tx: TxV) -> bool {
    bal_of(debit(reward_bals(b, tx), tx.from, tx.value), tx.to) + tx.value <= u64::MAX
}

/// When a transaction applies cleanly: its credits fit and the sender's
/// available funds cover the transfer.
pub open spec fn apply_ok(b: BalSeq, tx: TxV) -> bool {
    reward_fits(b, tx) && tx.value <= avail_of(b, tx) && transfer_fits(b, tx)
}

/// The balances after a clean application: reward credit, then debit the
/// sender, then credit the receiver.
pub open spec fn apply_bals(b: BalSeq, tx: TxV) -> BalSeq {
    credit(debit(reward_bals(b, tx), tx.from, tx.value), tx.to, tx.value)
}

/// The whole-state effect of a clean application under hash context `h`.
pub open spec fn apply_tx(s: StateV, tx: TxV, h: Seq<u8>) -> StateV {
    StateV { balances: apply_bals(s.balances, tx), pending: s.pending, latest: h, height: s.height }
}

/// What a failed application reports and leaves behind: an insufficiency
/// keeps any reward credit already made; an overflow of the reward credit
/// changes nothing, an overflow of the transfer credit keeps the reward
/// credit; nothing else mutates.
pub open spec fn apply_err_ok(b: BalSeq, tx: TxV, e: StateError, newb: BalSeq) -> bool {
    match e {
        StateError::InsufficientBalance { account, requested, available } => {
            &&& reward_fits(b, tx)
            &&& tx.value > avail_of(b, tx)
            &&& account@ == tx.from
            &&& requested == tx.value
            &&& available == avail_of(b, tx)
            &&& newb == reward_bals(b, tx)
        },
        StateError::BalanceOverflow { account } => {
            &&& account@ == tx.to
            &&& if reward_fits(b, tx) {
                &&& tx.value <= avail_of(b, tx)
                &&& !transfer_fits(b, tx)
                &&& newb == reward_bals(b, tx)
            } else {
                newb == b
            }
        },
        _ => false,
    }
}

impl State {
    /// Applies one transaction against the balances and records `block_hash`
    /// as the new chain context. Succeeds exactly when the credits fit and
    /// the sender's available funds cover the value.
    pub fn apply(&mut self, tx: &Tx, block_hash: crate::hash::Hash) -> (r: Result<(), StateError>)
        requires
            old(self)@.wf(),
        ensures
            final(self)@.wf(),
            final(self)@.pending == old(self)@.pending,
            final(self)@.height == old(self)@.height,
            r.is_ok() == apply_ok(old(self)@.balances, tx@),
            match r {
                Ok(()) => final(self)@ == apply_tx(old(self)@, tx@, block_hash@),
                Err(e) => final(self)@.latest == old(self)@.latest && apply_err_ok(
                    old(self)@.balances,
                    tx@,
                    e,
                    final(self)@.balances,
                ),
            },
    {
        let ghost b0 = bals_view(self.balances@);
        if tx.is_reward() {
            let fits = credit_balance(&mut self.balances, &tx.to, tx.value);
            if !fits {
                return Err(StateError::BalanceOverflow { account: tx.to.0.clone() });
            }
        }
        let ghost b1 = bals_view(self.balances@);
        proof {
            assert(b1 == reward_bals(b0, tx@));
        }
        let from_balance = balance_of(&self.balances, &tx.from.0);
        if tx.value > from_balance {
            return Err(
                StateError::InsufficientBalance {
                    account: tx.from.0.clone(),
                    requested: tx.value,
                    available: from_balance,
                },
            );
        }
        if !(tx.from.0 == tx.to.0) {
            let to_balance = balance_of(&self.balances, &tx.to.0);
            if tx.value > u64::MAX - to_balance {
                proof {
                    lemma_bal_debit(b1, tx@.from, tx@.value, tx@.to);
                }
                return Err(StateError::BalanceOverflow { account: tx.to.0.clone() });
            }
        }
        proof {
            lemma_bal_debit(b1, tx@.from, tx@.value, tx@.to);
        }
        debit_balance(&mut self.balances, &tx.from.0, tx.value);
        let fits2 = credit_balance(&mut self.balances, &tx.to, tx.value);
        proof {
            assert(fits2);
        }
        self.latest_blockhash = block_hash;
        Ok(())
    }

    /// Submits a transaction: applies it against the current chain tip (which
    /// therefore does not move) and enqueues it for the next block only on
    /// success.
    pub fn add(&mut self, tx: Tx) -> (r: Result<(), StateError>)
        requires
            old(self)@.wf(),
        ensures
            final(self)@.wf(),
            final(self)@.latest == old(self)@.latest,
            final(self)@.height == old(self)@.height,
            r.is_ok() == apply_ok(old(self)@.balances, tx@),
            match r {
                Ok(()) => final(self)@.balances == apply_bals(old(self)@.balances, tx@)
                    && final(self)@.pending == old(self)@.pending.push(tx@),
                Err(e) => final(self)@.pending == old(self)@.pending && apply_err_ok(
                    old(self)@.balances,
                    tx@,
                    e,
                    final(self)@.balances,
                ),
            },
    {
        let h = self.latest_blockhash;
        match self.apply(&tx, h) {
            Ok(()) => {
                let ghost p0 = txs_view(self.tx_mempool@);
                let ghost t0 = tx@;
                self.tx_mempool.push(tx);
                proof {
                    assert(txs_view(self.tx_mempool@) =~= p0.push(t0));
                }
                Ok(())
            },
            Err(e) => Err(e),
        }
    }

    /// The chain tip as 64 lowercase hex characters.
    pub fn hash_to_hex(&self) -> (r: String)
        ensures
            r@ == hex_of(self@.latest),
    {
        self.latest_blockhash.to_hex()
    }

    /// Decodes a 64-character hex string into a hash; rejects non-hex text
    /// and any byte length other than 32.
    pub fn hex_to_hash(hex_str: &str) -> (r: Result<crate::hash::Hash, StateError>)
        ensures
            match r {
                Ok(h) => hex_str@.len() == 64 && all_hex(hex_str@) && h@ == hex_bytes(hex_str@),
                Err(e) => match e {
                    StateError::HexDecode => !(hex_str@.len() % 2 == 0 && all_hex(hex_str@)),
                    StateError::InvalidLength(l) => hex_str@.len() % 2 == 0 && all_hex(hex_str@)
                        && l == hex_str@.len() / 2 && l != 32,
                    _ => false,
                },
            },
    {
        broadcast use vstd::array::group_array_axioms;

        let bytes = match crate::hash::decode_hex(hex_str) {
            Some(v) => v,
            None => {
                return Err(StateError::HexDecode);
            },
        };
        proof {
            crate::hash::lemma_hex_bytes_len(hex_str@);
        }
        if bytes.len() != 32 {
            return Err(StateError::InvalidLength(bytes.len()));
        }
        let mut arr = [0u8; 32];
        let mut k: usize = 0;
        while k < 32
            invariant
                k <= 32,
                bytes@.len() == 32,
                arr@.len() == 32,
                forall|j: int| 0 <= j < k ==> arr@[j] == bytes@[j],
            decreases 32 - k,
        {
            arr[k] = bytes[k];
            k = k + 1;
        }
        proof {
            assert(arr@ =~= bytes@);
        }
        Ok(crate::hash::Hash(arr))
    }
}


/// The balances after replaying a transaction sequence in order.
pub open spec fn replay_bals(b: BalSeq, txs: Seq<TxV>) -> BalSeq
    decreases txs.len(),
{
    if txs.len() == 0 {
        b
    } else {
        replay_bals(apply_bals(b, txs[0]), txs.drop_first())
    }
}

/// Whether every transaction of the sequence applies cleanly in order.
pub open spec fn replay_txs_ok(b: BalSeq, txs: Seq<TxV>) -> bool
    decreases txs.len(),
{
    txs.len() == 0 || (apply_ok(b, txs[0]) && replay_txs_ok(apply_bals(b, txs[0]), txs.drop_first()))
}

pub proof fn lemma_replay_snoc(b: BalSeq, txs: Seq<TxV>, t: TxV)
    ensures
        replay_bals(b, txs.push(t)) == apply_bals(replay_bals(b, txs), t),
        replay_txs_ok(b, txs.push(t)) == (replay_txs_ok(b, txs) && apply_ok(replay_bals(b, txs), t)),
    decreases txs.len(),
{
    if txs.len() == 0 {
        assert(txs.push(t)[0] == t);
        assert(txs.push(t).drop_first() =~= Seq::<TxV>::empty());
        assert(replay_bals(apply_bals(b, t), Seq::<TxV>::empty()) == apply_bals(b, t));
        assert(replay_txs_ok(apply_bals(b, t), Seq::<TxV>::empty()));
        assert(replay_bals(b, txs) == b);
        assert(replay_txs_ok(b, txs));
    } else {
        lemma_replay_snoc(apply_bals(b, txs[0]), txs.drop_first(), t);
        assert(txs.push(t).drop_first() =~= txs.drop_first().push(t));
        assert(txs.push(t)[0] == txs[0]);
    }
}

pub proof fn lemma_replay_fail(b: BalSeq, txs: Seq<TxV>, i: int)
    requires
        0 <= i < txs.len(),
        replay_txs_ok(b, txs.subrange(0, i)),
        !apply_ok(replay_bals(b, txs.subrange(0, i)), txs[i]),
    ensures
        !replay_txs_ok(b, txs),
    decreases i,
{
    if i == 0 {
        assert(txs.subrange(0, 0) =~= Seq::<TxV>::empty());
        assert(replay_bals(b, txs.subrange(0, 0)) == b);
    } else {
        let pre = txs.subrange(0, i);
        assert(pre[0] == txs[0]);
        assert(pre.drop_first() =~= txs.drop_first().subrange(0, i - 1));
        lemma_replay_fail(apply_bals(b, txs[0]), txs.drop_first(), i - 1);
        assert(txs.drop_first()[i - 1] == txs[i]);
    }
}

/// One step of disk replay: the record's transactions under its stored hash,
/// and the height moved up by one.
pub open spec fn replay_rec(s: StateV, rec: RecordV) -> StateV {
    StateV {
        balances: replay_bals(s.balances, rec.block.txs),
        pending: s.pending,
        latest: if rec.block.txs.len() == 0 {
            s.latest
        } else {
            hex_bytes(rec.blockhash)
        },
        height: (s.height + 1) as u64,
    }
}

/// A stored hash that decodes: 64 hex characters.
pub open spec fn hash_ok(h: Seq<char>) -> bool {
    h.len() == 64 && all_hex(h)
}

/// Whether one record replays cleanly from this state.
pub open spec fn rec_ok(s: StateV, rec: RecordV) -> bool {
    hash_ok(rec.blockhash) && replay_txs_ok(s.balances, rec.block.txs) && s.height < u64::MAX
}

/// The state after replaying a record sequence in file order.
pub open spec fn replay_records(s: StateV, recs: Seq<RecordV>) -> StateV
    decreases recs.len(),
{
    if recs.len() == 0 {
        s
    } else {
        replay_records(replay_rec(s, recs[0]), recs.drop_first())
    }
}

/// Whether every record of the sequence replays cleanly in order.
pub open spec fn replay_ok(s: StateV, recs: Seq<RecordV>) -> bool
    decreases recs.len(),
{
    recs.len() == 0 || (rec_ok(s, recs[0]) && replay_ok(replay_rec(s, recs[0]), recs.drop_first()))
}

pub proof fn lemma_replay_records_snoc(s: StateV, recs: Seq<RecordV>, rec: RecordV)
    ensures
        replay_records(s, recs.push(rec)) == replay_rec(replay_records(s, recs), rec),
        replay_ok(s, recs.push(rec)) == (replay_ok(s, recs) && rec_ok(replay_records(s, recs), rec)),
    decreases recs.len(),
{
    if recs.len() == 0 {
        assert(recs.push(rec)[0] == rec);
        assert(recs.push(rec).drop_first() =~= Seq::<RecordV>::empty());
        assert(replay_records(replay_rec(s, rec), Seq::<RecordV>::empty()) == replay_rec(s, rec));
        assert(replay_ok(replay_rec(s, rec), Seq::<RecordV>::empty()));
        assert(replay_records(s, recs) == s);
        assert(replay_ok(s, recs));
    } else {
        lemma_replay_records_snoc(replay_rec(s, recs[0]), recs.drop_first(), rec);
        assert(recs.push(rec).drop_first() =~= recs.drop_first().push(rec));
        assert(recs.push(rec)[0] == recs[0]);
    }
}

/// The state seeded from a genesis document: its balances, an empty queue,
/// the all-zero chain tip, height zero.
pub open spec fn genesis_state(g: GenesisV) -> StateV {
    StateV {
        balances: g.balances,
        pending: Seq::empty(),
        latest: Seq::new(32, |i: int| 0u8),
        height: 0,
    }
}

/// Whether a log text consists exactly of the given records' canonical
/// lines: each followed by a newline, the last one's newline optional.
pub open spec fn log_matches(log: Seq<char>, recs: Seq<RecordV>) -> bool {
    crate::codec::lines_match(log, recs.map_values(|rec: RecordV| record_json(rec)))
}

/// Every record's parent hash is 32 bytes wide, as every real block's is.
pub open spec fn recs_wf(recs: Seq<RecordV>) -> bool {
    forall|k: int| 0 <= k < recs.len() ==> (#[trigger] recs[k]).wf()
}

/// A clean replay is clean at every step.
pub proof fn lemma_replay_ok_at(s: StateV, recs: Seq<RecordV>, j: int)
    requires
        replay_ok(s, recs),
        0 <= j < recs.len(),
    ensures
        rec_ok(replay_records(s, recs.subrange(0, j)), recs[j]),
    decreases j,
{
    if j == 0 {
        assert(recs.subrange(0, 0) =~= Seq::<RecordV>::empty());
    } else {
        lemma_replay_ok_at(replay_rec(s, recs[0]), recs.drop_first(), j - 1);
        assert(recs.drop_first().subrange(0, j - 1) =~= recs.subrange(0, j).drop_first());
        assert(recs.subrange(0, j)[0] == recs[0]);
        assert(recs.drop_first()[j - 1] == recs[j]);
    }
}

/// A log text pins its records: any well-formed record sequence whose
/// canonical lines read as the text has exactly the text's lines.
proof fn lemma_log_pins_records(log: Seq<char>, lv: Seq<Seq<char>>, recs2: Seq<RecordV>)
    requires
        crate::codec::lines_match(log, lv),
        forall|k: int| 0 <= k < lv.len() ==> crate::codec::line_safe(#[trigger] lv[k]),
        log_matches(log, recs2),
    ensures
        lv.len() == recs2.len(),
        forall|k: int| 0 <= k < lv.len() ==> lv[k] == record_json(#[trigger] recs2[k]),
{
    let ls = recs2.map_values(|rec: RecordV| record_json(rec));
    assert forall|k: int| 0 <= k < ls.len() implies crate::codec::line_safe(#[trigger] ls[k]) by {
        crate::codec::lemma_record_json_line_safe(recs2[k]);
        assert(ls[k] == record_json(recs2[k]));
    }
    crate::codec::lemma_lines_unique(log, lv, ls);
    assert forall|k: int| 0 <= k < lv.len() implies lv[k] == record_json(#[trigger] recs2[k]) by {
        assert(lv[k] == ls[k]);
    }
}

/// The block a persist call would assemble now.
pub open spec fn block_of(s: StateV, time: u64) -> BlockV {
    BlockV {
        header: HeaderV { parent: s.latest, height: (s.height + 1) as u64, time },
        txs: s.pending,
    }
}

/// The record a persist call would append now.
pub open spec fn record_of(s: StateV, time: u64) -> RecordV {
    RecordV {
        blockhash: hex_of(crate::block::sha256_str_of(block_json(block_of(s, time)))),
        block: block_of(s, time),
    }
}

/// The state after a persist call: balances kept, queue cleared, the tip at
/// the new block's hash, the height moved up by one.
pub open spec fn persist_post(s: StateV, time: u64) -> StateV {
    StateV {
        balances: s.balances,
        pending: Seq::empty(),
        latest: crate::block::sha256_str_of(block_json(block_of(s, time))),
        height: (s.height + 1) as u64,
    }
}

impl State {
    /// Replays every transaction of a block, in order, each against the
    /// block's own claimed hash. The queue and height are untouched; the tip
    /// moves to the claimed hash once any transaction has applied.
    pub fn add_block(&mut self, block: Block, block_hash: crate::hash::Hash) -> (r: Result<
        (),
        StateError,
    >)
        requires
            old(self)@.wf(),
        ensures
            final(self)@.wf(),
            final(self)@.pending == old(self)@.pending,
            final(self)@.height == old(self)@.height,
            r.is_ok() == replay_txs_ok(old(self)@.balances, block@.txs),
            r.is_ok() ==> final(self)@.balances == replay_bals(old(self)@.balances, block@.txs)
                && final(self)@.latest == if block@.txs.len() == 0 {
                old(self)@.latest
            } else {
                block_hash@
            },
            match r {
                Ok(()) => true,
                Err(e) => exists|k: int|
                    {
                        let pre = replay_bals(
                            old(self)@.balances,
                            #[trigger] block@.txs.subrange(0, k),
                        );
                        &&& 0 <= k < block@.txs.len()
                        &&& replay_txs_ok(old(self)@.balances, block@.txs.subrange(0, k))
                        &&& !apply_ok(pre, block@.txs[k])
                        &&& apply_err_ok(pre, block@.txs[k], e, final(self)@.balances)
                        &&& final(self)@.latest == if k == 0 {
                            old(self)@.latest
                        } else {
                            block_hash@
                        }
                    },
            },
    {
        let ghost b0 = self@.balances;
        let ghost l0 = self@.latest;
        let ghost tv = block@.txs;
        let n = block.txs.len();
        let mut i: usize = 0;
        proof {
            assert(tv.subrange(0, 0) =~= Seq::<TxV>::empty());
        }
        while i < n
            invariant
                i <= n,
                n == block.txs@.len(),
                tv == block@.txs,
                b0 == old(self)@.balances,
                l0 == old(self)@.latest,
                self@.wf(),
                self@.balances == replay_bals(b0, tv.subrange(0, i as int)),
                replay_txs_ok(b0, tv.subrange(0, i as int)),
                self@.pending == old(self)@.pending,
                self@.height == old(self)@.height,
                self@.latest == if i == 0 {
                    l0
                } else {
                    block_hash@
                },
            decreases n - i,
        {
            let ghost pre = tv.subrange(0, i as int);
            let ghost bals_pre = self@.balances;
            match self.apply(&block.txs[i], block_hash) {
                Ok(()) => {},
                Err(e) => {
                    proof {
                        assert(tv[i as int] == block.txs@[i as int]@);
                        assert(!apply_ok(bals_pre, tv[i as int]));
                        assert(bals_pre == replay_bals(b0, pre));
                        lemma_replay_fail(b0, tv, i as int);
                        assert(apply_err_ok(bals_pre, tv[i as int], e, self@.balances));
                        assert(replay_bals(b0, tv.subrange(0, i as int)) == bals_pre);
                    }
                    return Err(e);
                },
            }
            proof {
                assert(tv.subrange(0, i + 1) =~= pre.push(tv[i as int]));
                lemma_replay_snoc(b0, pre, tv[i as int]);
            }
            i = i + 1;
        }
        proof {
            assert(tv.subrange(0, n as int) =~= tv);
        }
        Ok(())
    }

    /// Packages the pending queue into the next block at the given wall-clock
    /// time, clears the queue, moves the tip and height forward, and returns
    /// the new hash together with the log line to append. An empty queue
    /// still produces a (transactionless) block.
    pub fn persist(&mut self, time: u64) -> (r: (crate::hash::Hash, String))
        requires
            old(self)@.wf(),
            old(self)@.height < u64::MAX,
        ensures
            final(self)@ == persist_post(old(self)@, time),
            final(self)@.wf(),
            r.0@ == persist_post(old(self)@, time).latest,
            r.1@ == record_json(record_of(old(self)@, time)),
            crate::codec::line_safe(r.1@),
    {
        let mut txs: Vec<Tx> = Vec::new();
        core::mem::swap(&mut txs, &mut self.tx_mempool);
        let block = Block::new(self.latest_blockhash, txs, self.height + 1, time);
        proof {
            assert(block@ =~~= block_of(old(self)@, time));
        }
        let blockhash = block.hash();
        let hex_string = blockhash.to_hex();
        let record = BlockRecord { blockhash: hex_string, block };
        let line = crate::codec::encode_record(&record);
        proof {
            assert(record@ =~~= record_of(old(self)@, time));
        }
        self.latest_blockhash = blockhash;
        self.height = self.height + 1;
        proof {
            assert(txs_view(self.tx_mempool@) =~= Seq::<TxV>::empty());
            assert(self@ =~~= persist_post(old(self)@, time));
            crate::codec::lemma_record_json_line_safe(record_of(old(self)@, time));
        }
        (blockhash, line)
    }

    /// Rebuilds the ledger from the genesis balances and the raw log text:
    /// seeds the balances, then replays every well-formed line in file order,
    /// trusting each record's stored hash. Any bad line or failing
    /// transaction aborts the whole load — and a load fails only when no
    /// well-formed record sequence reads as the log and replays cleanly, so
    /// success is owed on every log the ledger itself has written.
    pub fn new_from_disk(genesis: &Genesis, log_data: &str) -> (r: Result<State, StateError>)
        requires
            genesis@.wf(),
        ensures
            match r {
                Ok(st) => {
                    &&& st@.wf()
                    &&& exists|recs: Seq<RecordV>|
                        {
                            &&& #[trigger] log_matches(log_data@, recs)
                            &&& recs_wf(recs)
                            &&& replay_ok(genesis_state(genesis@), recs)
                            &&& st@ == replay_records(genesis_state(genesis@), recs)
                        }
                },
                Err(e) => forall|recs: Seq<RecordV>|
                    #[trigger] log_matches(log_data@, recs) && recs_wf(recs) ==> !replay_ok(
                        genesis_state(genesis@),
                        recs,
                    ),
            },
    {
        let mut st = State {
            balances: Vec::new(),
            tx_mempool: Vec::new(),
            latest_blockhash: crate::hash::Hash::zero(),
            height: 0,
        };
        let m = genesis.balances.len();
        let mut i: usize = 0;
        proof {
            assert(bals_view(st.balances@) =~= genesis@.balances.subrange(0, 0));
        }
        while i < m
            invariant
                i <= m,
                m == genesis.balances@.len(),
                st.tx_mempool@.len() == 0,
                st.height == 0,
                st.latest_blockhash@ =~= Seq::new(32, |k: int| 0u8),
                bals_view(st.balances@) == genesis@.balances.subrange(0, i as int),
            decreases m - i,
        {
            let ghost pre = bals_view(st.balances@);
            st.balances.push((genesis.balances[i].0.clone(), genesis.balances[i].1));
            proof {
                assert(bals_view(st.balances@) =~= pre.push(genesis@.balances[i as int]));
                assert(genesis@.balances.subrange(0, i + 1) =~= pre.push(
                    genesis@.balances[i as int],
                ));
            }
            i = i + 1;
        }
        let ghost gs = genesis_state(genesis@);
        proof {
            assert(genesis@.balances.subrange(0, m as int) =~= genesis@.balances);
            assert(txs_view(st.tx_mempool@) =~= Seq::<TxV>::empty());
            assert(st@ =~~= gs);
        }
        let lines = crate::codec::split_lines(log_data);
        let ghost lv = crate::codec::lines_view(lines@);
        let n = lines.len();
        let ghost mut recs: Seq<RecordV> = Seq::empty();
        let mut j: usize = 0;
        while j < n
            invariant
                j <= n,
                n == lines@.len(),
                lv == crate::codec::lines_view(lines@),
                gs == genesis_state(genesis@),
                crate::codec::lines_match(log_data@, lv),
                forall|k: int| 0 <= k < lv.len() ==> crate::codec::line_safe(#[trigger] lv[k]),
                recs.len() == j,
                forall|k: int| 0 <= k < j ==> lv[k] == record_json(#[trigger] recs[k]),
                forall|k: int| 0 <= k < j ==> (#[trigger] recs[k]).wf(),
                forall|k: int, rv: RecordV|
                    #![trigger recs[k], record_json(rv)]
                    0 <= k < j && rv.wf() && lv[k] == record_json(rv) ==> rv == recs[k],
                replay_ok(gs, recs),
                st@ == replay_records(gs, recs),
                st@.wf(),
                st@.height == j,
                st@.pending == Seq::<TxV>::empty(),
            decreases n - j,
        {
            let ghost st_pre = st@;
            let ghost recs_pre = recs;
            let line = &lines[j];
            let rec = match crate::codec::parse_record(line.as_str()) {
                Some(rec) => rec,
                None => {
                    proof {
                        assert forall|recs2: Seq<RecordV>|
                            #[trigger] log_matches(log_data@, recs2) && recs_wf(recs2) implies
                        !replay_ok(gs, recs2) by {
                            if replay_ok(gs, recs2) {
                                lemma_log_pins_records(log_data@, lv, recs2);
                                assert(lv[j as int] == record_json(recs2[j as int]));
                                assert(recs2[j as int].wf());
                                assert(line@ == lv[j as int]);
                            }
                        }
                    }
                    return Err(StateError::MalformedRecord);
                },
            };
            let ghost recv = rec@;
            let BlockRecord { blockhash, block } = rec;
            let h = match Self::hex_to_hash(blockhash.as_str()) {
                Ok(h) => h,
                Err(e) => {
                    proof {
                        assert forall|recs2: Seq<RecordV>|
                            #[trigger] log_matches(log_data@, recs2) && recs_wf(recs2) implies
                        !replay_ok(gs, recs2) by {
                            if replay_ok(gs, recs2) {
                                lemma_log_pins_records(log_data@, lv, recs2);
                                assert(lv[j as int] == record_json(recs2[j as int]));
                                assert(recs2[j as int].wf());
                                assert(line@ == lv[j as int]);
                                assert(recs2[j as int] == recv);
                                assert forall|k: int| 0 <= k < j implies recs2[k] == #[trigger] recs[k] by {
                                    assert(lv[k] == record_json(recs2[k]));
                                    assert(recs2[k].wf());
                                }
                                assert(recs2.subrange(0, j as int) =~= recs);
                                lemma_replay_ok_at(gs, recs2, j as int);
                                assert(rec_ok(replay_records(gs, recs), recv));
                                assert(hash_ok(recv.blockhash));
                                assert(false);
                            }
                        }
                    }
                    return Err(e);
                },
            };
            match st.add_block(block, h) {
                Ok(()) => {},
                Err(e) => {
                    proof {
                        assert forall|recs2: Seq<RecordV>|
                            #[trigger] log_matches(log_data@, recs2) && recs_wf(recs2) implies
                        !replay_ok(gs, recs2) by {
                            if replay_ok(gs, recs2) {
                                lemma_log_pins_records(log_data@, lv, recs2);
                                assert(lv[j as int] == record_json(recs2[j as int]));
                                assert(recs2[j as int].wf());
                                assert(line@ == lv[j as int]);
                                assert(recs2[j as int] == recv);
                                assert forall|k: int| 0 <= k < j implies recs2[k] == #[trigger] recs[k] by {
                                    assert(lv[k] == record_json(recs2[k]));
                                    assert(recs2[k].wf());
                                }
                                assert(recs2.subrange(0, j as int) =~= recs);
                                lemma_replay_ok_at(gs, recs2, j as int);
                                assert(rec_ok(replay_records(gs, recs), recv));
                                assert(replay_txs_ok(st_pre.balances, recv.block.txs));
                                assert(false);
                            }
                        }
                    }
                    return Err(e);
                },
            }
            proof {
                assert(usize::MAX <= u64::MAX);
            }
            st.height = st.height + 1;
            proof {
                recs = recs.push(recv);
                lemma_replay_records_snoc(gs, recs_pre, recv);
                assert(st@ =~~= replay_rec(st_pre, recv));
                assert(replay_ok(gs, recs));
                assert forall|k: int, rv: RecordV|
                    #![trigger recs[k], record_json(rv)]
                    0 <= k < j + 1 && rv.wf() && lv[k] == record_json(rv) implies rv == recs[k] by {
                    if k < j {
                        assert(rv == recs_pre[k]);
                    }
                }
            }
            j = j + 1;
        }
        proof {
            let ls = recs.map_values(|rec: RecordV| record_json(rec));
            assert(ls =~= lv);
            assert(log_matches(log_data@, recs));
        }
        Ok(st)
    }
}


/// How one balances entry and those after it read at position `i`: quoted
/// key, colon, decimal amount, then a comma and the next entry or the
/// object's closing brace at `end`, with free blank space between tokens.
pub open spec fn entries_denote(t: Seq<char>, i: int, entries: BalSeq, end: int) -> bool
    decreases entries.len(),
{
    if entries.len() == 0 {
        false
    } else {
        let k = entries[0].0;
        let v = entries[0].1;
        let kq = i + 1 + crate::codec::esc(k).len() + 1;
        let colon = crate::codec::ws_end(t, kq);
        let num = crate::codec::ws_end(t, colon + 1);
        let numend = num + crate::codec::dec(v as nat).len();
        let sep = crate::codec::ws_end(t, numend);
        &&& i < t.len() && t[i] == '"'
        &&& kq <= t.len() && t.subrange(i + 1, kq) == crate::codec::esc(k) + "\""@
        &&& colon < t.len() && t[colon] == ':'
        &&& numend <= t.len() && t.subrange(num, numend) == crate::codec::dec(v as nat)
        &&& sep < t.len()
        &&& if entries.len() == 1 {
            t[sep] == '}' && end == sep + 1
        } else {
            t[sep] == ',' && entries_denote(t, crate::codec::ws_end(t, sep + 1), entries.drop_first(), end)
        }
    }
}

/// Where the balances object's content begins in a document whose two
/// leading fields read as the given strings.
pub open spec fn genesis_inner(t: Seq<char>, gt: Seq<char>, cid: Seq<char>) -> int {
    let p0 = crate::codec::ws_end(t, 0);
    let p1 = crate::codec::ws_end(t, p0 + 1);
    let c1 = crate::codec::ws_end(t, p1 + "\"genesis_time\""@.len());
    let v1 = crate::codec::ws_end(t, c1 + 1);
    let m1 = crate::codec::ws_end(t, v1 + 1 + crate::codec::esc(gt).len() + 1);
    let p2 = crate::codec::ws_end(t, m1 + 1);
    let c2 = crate::codec::ws_end(t, p2 + "\"chain_id\""@.len());
    let v2 = crate::codec::ws_end(t, c2 + 1);
    let m2 = crate::codec::ws_end(t, v2 + 1 + crate::codec::esc(cid).len() + 1);
    let p3 = crate::codec::ws_end(t, m2 + 1);
    let c3 = crate::codec::ws_end(t, p3 + "\"balances\""@.len());
    let ob = crate::codec::ws_end(t, c3 + 1);
    crate::codec::ws_end(t, ob + 1)
}

/// How a genesis document's leading tokens read: the object opens, then the
/// genesis-time and chain-id fields with the given string values, then the
/// balances key and its opening brace, with free blank space between tokens.
pub open spec fn genesis_head(t: Seq<char>, gt: Seq<char>, cid: Seq<char>) -> bool {
    let p0 = crate::codec::ws_end(t, 0);
    let p1 = crate::codec::ws_end(t, p0 + 1);
    let c1 = crate::codec::ws_end(t, p1 + "\"genesis_time\""@.len());
    let v1 = crate::codec::ws_end(t, c1 + 1);
    let m1 = crate::codec::ws_end(t, v1 + 1 + crate::codec::esc(gt).len() + 1);
    let p2 = crate::codec::ws_end(t, m1 + 1);
    let c2 = crate::codec::ws_end(t, p2 + "\"chain_id\""@.len());
    let v2 = crate::codec::ws_end(t, c2 + 1);
    let m2 = crate::codec::ws_end(t, v2 + 1 + crate::codec::esc(cid).len() + 1);
    let p3 = crate::codec::ws_end(t, m2 + 1);
    let c3 = crate::codec::ws_end(t, p3 + "\"balances\""@.len());
    let ob = crate::codec::ws_end(t, c3 + 1);
    &&& p0 < t.len() && t[p0] == '{'
    &&& p1 + "\"genesis_time\""@.len() <= t.len() && t.subrange(
        p1,
        p1 + "\"genesis_time\""@.len(),
    ) == "\"genesis_time\""@
    &&& c1 < t.len() && t[c1] == ':'
    &&& v1 < t.len() && t[v1] == '"'
    &&& v1 + 1 + crate::codec::esc(gt).len() + 1 <= t.len() && t.subrange(
        v1 + 1,
        v1 + 1 + crate::codec::esc(gt).len() + 1,
    ) == crate::codec::esc(gt) + "\""@
    &&& m1 < t.len() && t[m1] == ','
    &&& p2 + "\"chain_id\""@.len() <= t.len() && t.subrange(p2, p2 + "\"chain_id\""@.len())
        == "\"chain_id\""@
    &&& c2 < t.len() && t[c2] == ':'
    &&& v2 < t.len() && t[v2] == '"'
    &&& v2 + 1 + crate::codec::esc(cid).len() + 1 <= t.len() && t.subrange(
        v2 + 1,
        v2 + 1 + crate::codec::esc(cid).len() + 1,
    ) == crate::codec::esc(cid) + "\""@
    &&& m2 < t.len() && t[m2] == ','
    &&& p3 + "\"balances\""@.len() <= t.len() && t.subrange(p3, p3 + "\"balances\""@.len())
        == "\"balances\""@
    &&& c3 < t.len() && t[c3] == ':'
    &&& ob < t.len() && t[ob] == '{'
}

/// Nothing but the document's closing brace and blank space stands at and
/// after position `q`.
pub open spec fn closes_doc(t: Seq<char>, q: int) -> bool {
    let fin = crate::codec::ws_end(t, q);
    fin < t.len() && t[fin] == '}' && crate::codec::ws_end(t, fin + 1) == t.len()
}

/// Whether the document text reads as this genesis value: the three fields
/// in order with free blank space between tokens, and nothing after the
/// closing brace.
pub open spec fn genesis_denotes(t: Seq<char>, g: GenesisV) -> bool {
    &&& genesis_head(t, g.genesis_time, g.chain_id)
    &&& ({
        let inner = genesis_inner(t, g.genesis_time, g.chain_id);
        if g.balances.len() == 0 {
            inner < t.len() && t[inner] == '}' && closes_doc(t, inner + 1)
        } else {
            exists|e: int| #[trigger] entries_denote(t, inner, g.balances, e) && closes_doc(t, e)
        }
    })
}

impl Genesis {
    /// Reads the genesis document: an object holding `genesis_time`,
    /// `chain_id` and the `balances` mapping, in that order, with free
    /// whitespace between tokens. A duplicate account key or any other
    /// malformed text is rejected whole; an accepted document denotes
    /// exactly the returned value.
    pub fn new(gen_data: &str) -> (r: Result<Genesis, GenesisError>)
        ensures
            match r {
                Ok(g) => g@.wf() && genesis_denotes(gen_data@, g@),
                Err(e) => true,
            },
    {
        match Self::parse_document(gen_data) {
            Some(g) => Ok(g),
            None => Err(GenesisError::Malformed),
        }
    }

    fn parse_document(s: &str) -> (r: Option<Genesis>)
        ensures
            match r {
                Some(g) => g@.wf() && genesis_denotes(s@, g@),
                None => true,
            },
    {
        proof {
            reveal_strlit("{");
            reveal_strlit("}");
            reveal_strlit(":");
            reveal_strlit(",");
            reveal_strlit("\"");
        }
        let n = s.unicode_len();
        let a0 = crate::codec::skip_ws(s, 0);
        let a1 = match crate::codec::expect_lit(s, a0, "{") {
            Some(q) => q,
            None => {
                return None;
            },
        };
        let b0 = crate::codec::skip_ws(s, a1);
        let b1 = match crate::codec::expect_lit(s, b0, "\"genesis_time\"") {
            Some(q) => q,
            None => {
                return None;
            },
        };
        let c0 = crate::codec::skip_ws(s, b1);
        let c1 = match crate::codec::expect_lit(s, c0, ":") {
            Some(q) => q,
            None => {
                return None;
            },
        };
        let d0 = crate::codec::skip_ws(s, c1);
        let d1 = match crate::codec::expect_lit(s, d0, "\"") {
            Some(q) => q,
            None => {
                return None;
            },
        };
        let (genesis_time, d2) = match crate::codec::parse_json_string(s, d1) {
            Some(x) => x,
            None => {
                return None;
            },
        };
        let e0 = crate::codec::skip_ws(s, d2);
        let e1 = match crate::codec::expect_lit(s, e0, ",") {
            Some(q) => q,
            None => {
                return None;
            },
        };
        let f0 = crate::codec::skip_ws(s, e1);
        let f1 = match crate::codec::expect_lit(s, f0, "\"chain_id\"") {
            Some(q) => q,
            None => {
                return None;
            },
        };
        let g0 = crate::codec::skip_ws(s, f1);
        let g1 = match crate::codec::expect_lit(s, g0, ":") {
            Some(q) => q,
            None => {
                return None;
            },
        };
        let h0 = crate::codec::skip_ws(s, g1);
        let h1 = match crate::codec::expect_lit(s, h0, "\"") {
            Some(q) => q,
            None => {
                return None;
            },
        };
        let (chain_id, h2) = match crate::codec::parse_json_string(s, h1) {
            Some(x) => x,
            None => {
                return None;
            },
        };
        let i0 = crate::codec::skip_ws(s, h2);
        let i1 = match crate::codec::expect_lit(s, i0, ",") {
            Some(q) => q,
            None => {
                return None;
            },
        };
        let j0 = crate::codec::skip_ws(s, i1);
        let j1 = match crate::codec::expect_lit(s, j0, "\"balances\"") {
            Some(q) => q,
            None => {
                return None;
            },
        };
        let k0 = crate::codec::skip_ws(s, j1);
        let k1 = match crate::codec::expect_lit(s, k0, ":") {
            Some(q) => q,
            None => {
                return None;
            },
        };
        let l0 = crate::codec::skip_ws(s, k1);
        let l1 = match crate::codec::expect_lit(s, l0, "{") {
            Some(q) => q,
            None => {
                return None;
            },
        };
        let inner = crate::codec::skip_ws(s, l1);
        proof {
            assert(s@[a0 as int] == s@.subrange(a0 as int, a1 as int)[0]);
            assert(s@[c0 as int] == s@.subrange(c0 as int, c1 as int)[0]);
            assert(s@[d0 as int] == s@.subrange(d0 as int, d1 as int)[0]);
            assert(s@[e0 as int] == s@.subrange(e0 as int, e1 as int)[0]);
            assert(s@[g0 as int] == s@.subrange(g0 as int, g1 as int)[0]);
            assert(s@[h0 as int] == s@.subrange(h0 as int, h1 as int)[0]);
            assert(s@[i0 as int] == s@.subrange(i0 as int, i1 as int)[0]);
            assert(s@[k0 as int] == s@.subrange(k0 as int, k1 as int)[0]);
            assert(s@[l0 as int] == s@.subrange(l0 as int, l1 as int)[0]);
            assert(a0 as int == crate::codec::ws_end(s@, 0));
            assert(b0 as int == crate::codec::ws_end(s@, a0 + 1));
            assert(c0 as int == crate::codec::ws_end(s@, b0 + "\"genesis_time\""@.len()));
            assert(d0 as int == crate::codec::ws_end(s@, c0 + 1));
            assert(("\"")@.len() == 1);
            assert(d1 as int == d0 + 1);
            assert(s@.subrange(d1 as int, d2 as int).len() == d2 - d1);
            assert((crate::codec::esc(genesis_time@) + "\""@).len() == crate::codec::esc(
                genesis_time@,
            ).len() + 1);
            assert(d2 as int == d0 + 1 + crate::codec::esc(genesis_time@).len() + 1);
            assert(e0 as int == crate::codec::ws_end(
                s@,
                d0 + 1 + crate::codec::esc(genesis_time@).len() + 1,
            ));
            assert(f0 as int == crate::codec::ws_end(s@, e0 + 1));
            assert(g0 as int == crate::codec::ws_end(s@, f0 + "\"chain_id\""@.len()));
            assert(h0 as int == crate::codec::ws_end(s@, g0 + 1));
            assert(h1 as int == h0 + 1);
            assert(s@.subrange(h1 as int, h2 as int).len() == h2 - h1);
            assert((crate::codec::esc(chain_id@) + "\""@).len() == crate::codec::esc(
                chain_id@,
            ).len() + 1);
            assert(h2 as int == h0 + 1 + crate::codec::esc(chain_id@).len() + 1);
            assert(i0 as int == crate::codec::ws_end(
                s@,
                h0 + 1 + crate::codec::esc(chain_id@).len() + 1,
            ));
            assert(j0 as int == crate::codec::ws_end(s@, i0 + 1));
            assert(k0 as int == crate::codec::ws_end(s@, j0 + "\"balances\""@.len()));
            assert(l0 as int == crate::codec::ws_end(s@, k0 + 1));
            assert(inner as int == crate::codec::ws_end(s@, l0 + 1));
            assert(genesis_head(s@, genesis_time@, chain_id@));
            assert(inner as int == genesis_inner(s@, genesis_time@, chain_id@));
        }
        let ghost innerg = inner as int;
        let mut balances: Vec<(Account, u64)> = Vec::new();
        let mut p = inner;
        match crate::codec::expect_lit(s, p, "}") {
            Some(q) => {
                proof {
                    assert(s@[inner as int] == s@.subrange(inner as int, q as int)[0]);
                }
                p = q;
            },
            None => {
                proof {
                    assert forall|es: BalSeq, e: int|
                        #![trigger entries_denote(s@, p as int, es, e)]
                        entries_denote(s@, p as int, es, e) implies entries_denote(
                        s@,
                        innerg,
                        bals_view(balances@) + es,
                        e,
                    ) by {
                        assert(bals_view(balances@) =~= Seq::<(Seq<char>, u64)>::empty());
                        assert(bals_view(balances@) + es =~= es);
                    }
                }
                loop
                    invariant_except_break
                        forall|es: BalSeq, e: int|
                            #![trigger entries_denote(s@, p as int, es, e)]
                            entries_denote(s@, p as int, es, e) ==> entries_denote(
                                s@,
                                innerg,
                                bals_view(balances@) + es,
                                e,
                            ),
                    invariant
                        p <= s@.len(),
                        n == s@.len(),
                        keys_unique(bals_view(balances@)),
                    ensures
                        keys_unique(bals_view(balances@)),
                        balances@.len() > 0,
                        p <= s@.len(),
                        entries_denote(s@, innerg, bals_view(balances@), p as int),
                    decreases n - p,
                {
                    proof {
                        reveal_strlit("\"");
                        reveal_strlit(":");
                        reveal_strlit(",");
                        reveal_strlit("}");
                    }
                    let ghost bals0 = bals_view(balances@);
                    let ghost p_top = p as int;
                    let q1 = match crate::codec::expect_lit(s, p, "\"") {
                        Some(q) => q,
                        None => {
                            return None;
                        },
                    };
                    let (key, q2) = match crate::codec::parse_json_string(s, q1) {
                        Some(x) => x,
                        None => {
                            return None;
                        },
                    };
                    let q3 = crate::codec::skip_ws(s, q2);
                    let q4 = match crate::codec::expect_lit(s, q3, ":") {
                        Some(q) => q,
                        None => {
                            return None;
                        },
                    };
                    let q5 = crate::codec::skip_ws(s, q4);
                    let (value, q6) = match crate::codec::parse_u64(s, q5) {
                        Some(x) => x,
                        None => {
                            return None;
                        },
                    };
                    if crate::balance::contains_key(&balances, &key) {
                        return None;
                    }
                    let ghost keyv = key@;
                    balances.push((Account(key), value));
                    proof {
                        assert(bals_view(balances@) =~= bals0.push((keyv, value)));
                        assert forall|a: int, b: int|
                            0 <= a < b < bals_view(balances@).len() implies (#[trigger] bals_view(
                            balances@,
                        )[a]).0 != (#[trigger] bals_view(balances@)[b]).0 by {
                            if b == bals0.len() {
                                assert(bals0[a].0 != keyv);
                            }
                        }
                        assert(s@[p_top] == s@.subrange(p_top, q1 as int)[0]);
                        assert(s@[q3 as int] == s@.subrange(q3 as int, q4 as int)[0]);
                        assert(q1 as int == p_top + 1);
                        assert(s@.subrange(q1 as int, q2 as int).len() == q2 - q1);
                        assert((crate::codec::esc(keyv) + "\""@).len() == crate::codec::esc(
                            keyv,
                        ).len() + 1);
                        assert(q2 as int == p_top + 1 + crate::codec::esc(keyv).len() + 1);
                        assert(q3 as int == crate::codec::ws_end(
                            s@,
                            p_top + 1 + crate::codec::esc(keyv).len() + 1,
                        ));
                        assert(q5 as int == crate::codec::ws_end(s@, q3 + 1));
                        assert(q6 as int == q5 + crate::codec::dec(value as nat).len());
                    }
                    let q7 = crate::codec::skip_ws(s, q6);
                    match crate::codec::expect_lit(s, q7, ",") {
                        Some(q8) => {
                            proof {
                                assert(s@[q7 as int] == s@.subrange(q7 as int, q8 as int)[0]);
                                assert(q7 as int == crate::codec::ws_end(
                                    s@,
                                    q5 + crate::codec::dec(value as nat).len(),
                                ));
                            }
                            p = crate::codec::skip_ws(s, q8);
                            proof {
                                assert forall|es: BalSeq, e: int|
                                    #![trigger entries_denote(s@, p as int, es, e)]
                                    entries_denote(s@, p as int, es, e) implies entries_denote(
                                    s@,
                                    innerg,
                                    bals_view(balances@) + es,
                                    e,
                                ) by {
                                    let full = seq![(keyv, value)] + es;
                                    assert(es.len() > 0);
                                    assert(full[0] == (keyv, value));
                                    assert(full.drop_first() =~= es);
                                    assert(entries_denote(s@, p_top, full, e));
                                    assert(bals0 + full =~= bals_view(balances@) + es);
                                    assert(entries_denote(s@, innerg, bals0 + full, e));
                                }
                            }
                        },
                        None => {
                            let q8 = match crate::codec::expect_lit(s, q7, "}") {
                                Some(q) => q,
                                None => {
                                    return None;
                                },
                            };
                            proof {
                                assert(s@[q7 as int] == s@.subrange(q7 as int, q8 as int)[0]);
                                assert(q7 as int == crate::codec::ws_end(
                                    s@,
                                    q5 + crate::codec::dec(value as nat).len(),
                                ));
                                let single: BalSeq = seq![(keyv, value)];
                                assert(single[0] == (keyv, value));
                                assert(entries_denote(s@, p_top, single, q8 as int));
                                assert(bals0 + single =~= bals_view(balances@));
                                assert(entries_denote(
                                    s@,
                                    innerg,
                                    bals_view(balances@),
                                    q8 as int,
                                ));
                            }
                            p = q8;
                            break;
                        },
                    }
                }
            },
        }
        let ghost bal_end = p as int;
        let m0 = crate::codec::skip_ws(s, p);
        let m1 = match crate::codec::expect_lit(s, m0, "}") {
            Some(q) => q,
            None => {
                return None;
            },
        };
        let fin0 = crate::codec::skip_ws(s, m1);
        if fin0 != n {
            return None;
        }
        proof {
            assert(s@[m0 as int] == s@.subrange(m0 as int, m1 as int)[0]);
            assert(closes_doc(s@, bal_end));
        }
        let g = Genesis { genesis_time, chain_id, balances };
        proof {
            assert(innerg == genesis_inner(s@, g@.genesis_time, g@.chain_id));
            if g.balances@.len() == 0 {
                assert(g@.balances.len() == 0);
                assert(bal_end == innerg + 1);
            } else {
                assert(g@.balances.len() > 0);
                assert(entries_denote(
                    s@,
                    genesis_inner(s@, g@.genesis_time, g@.chain_id),
                    g@.balances,
                    bal_end,
                ));
            }
            assert(genesis_denotes(s@, g@));
        }
        Some(g)
    }
}

} // verus!
