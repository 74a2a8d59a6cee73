//! Blocks: ordered batches of transactions linked to their parent by hash.
use vstd::prelude::*;
use sha2::{Digest, Sha256};

use crate::tx::{Tx, TxV};

verus! {

/// The mathematical content of a block header.
pub struct HeaderV {
    pub parent: Seq<u8>,
    pub height: u64,
    pub time: u64,
}

impl HeaderV {
    /// A parent hash is a 256-bit digest: exactly 32 bytes.
    pub open spec fn wf(self) -> bool {
        self.parent.len() == 32
    }
}

/// Links a block to its parent and fixes its place and creation time.
#[derive(Debug)]
pub struct BlockHeader {
    pub parent: crate::hash::Hash,
    pub height: u64,
    pub time: u64,
}

impl View for BlockHeader {
    type V = HeaderV;

    open spec fn view(&self) -> HeaderV {
        HeaderV { parent: self.parent@, height: self.height, time: self.time }
    }
}

pub open spec fn txs_view(s: Seq<Tx>) -> Seq<TxV> {
    s.map_values(|t: Tx| t@)
}

/// The mathematical content of a block.
pub struct BlockV {
    pub header: HeaderV,
    pub txs: Seq<TxV>,
}

impl BlockV {
    pub open spec fn wf(self) -> bool {
        self.header.wf()
    }
}

/// An ordered batch of transactions under one header; balances follow from
/// applying the transactions strictly in sequence order.
#[derive(Debug)]
pub struct Block {
    pub header: BlockHeader,
    pub txs: Vec<Tx>,
}

impl View for Block {
    type V = BlockV;

    open spec fn view(&self) -> BlockV {
        BlockV { header: self.header@, txs: txs_view(self.txs@) }
    }
}

/// The mathematical content of a persisted block record.
pub struct RecordV {
    pub blockhash: Seq<char>,
    pub block: BlockV,
}

impl RecordV {
    pub open spec fn wf(self) -> bool {
        self.block.wf()
    }
}

/// One line of the log: a block and the hash computed for it at creation.
#[derive(Debug)]
pub struct BlockRecord {
    pub blockhash: String,
    pub block: Block,
}

impl View for BlockRecord {
    type V = RecordV;

    open spec fn view(&self) -> RecordV {
        RecordV { blockhash: self.blockhash@, block: self.block@ }
    }
}

impl Block {
    /// Assembles a block over the given parent hash, height and wall-clock
    /// seconds; the transactions keep their queue order.
    pub fn new(latest_blockhash: crate::hash::Hash, txs: Vec<Tx>, block_height: u64, time: u64) -> (r: Block)
        ensures
            r@.header.parent == latest_blockhash@,
            r@.header.height == block_height,
            r@.header.time == time,
            r@.txs == txs_view(txs@),
    {
        let header = BlockHeader { parent: latest_blockhash, height: block_height, time };
        Block { header, txs }
    }

    /// The block's digest: SHA-256 over its canonical serialized form.
    pub fn hash(&self) -> (r: crate::hash::Hash)
        ensures
            r@ == sha256_str_of(crate::codec::block_json(self@)),
    {
        let json = crate::codec::encode_block(self);
        crate::hash::Hash(sha256_str(json.as_str()))
    }
}

/// The SHA-256 digest of a string's bytes, named: it depends on the
/// characters alone and is the same on every run.
pub uninterp spec fn sha256_str_of(s: Seq<char>) -> Seq<u8>;

/// Relies on sha2's Sha256 (via the Digest trait): a 32-byte digest of the
/// input bytes, here the UTF-8 bytes of the string.
#[verifier::external_body]
fn sha256_str(s: &str) -> (r: [u8; 32])
    ensures
        r@ == sha256_str_of(s@),
{
    let digest = Sha256::digest(s.as_bytes());
    digest.into()
}

} // verus!
