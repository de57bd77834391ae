use vstd::prelude::*;
use crate::ledger::transaction::{Transaction, TxView, txs_view, clone_txs};
use crate::utils::hash::{block_hash, calculate_hash};

verus! {

/// A block of the chain: its position, the second it was made, its transactions,
/// the hash of the block before it and its own hash.
pub struct Block {
    pub index: u32,
    pub timestamp: u64,
    pub data: Vec<Transaction>,
    pub prev_hash: String,
    pub hash: String,
}

/// The mathematical value of a [`Block`].
pub struct BlockView {
    pub index: u32,
    pub timestamp: u64,
    pub data: Seq<TxView>,
    pub prev_hash: Seq<char>,
    pub hash: Seq<char>,
}

impl View for Block {
    type V = BlockView;

    open spec fn view(&self) -> BlockView {
        BlockView {
            index: self.index,
            timestamp: self.timestamp,
            data: txs_view(self.data@),
            prev_hash: self.prev_hash@,
            hash: self.hash@,
        }
    }
}

impl BlockView {
    /// The hash that the block's other fields determine.
    pub open spec fn computed_hash(self) -> Seq<char> {
        block_hash(self.index, self.timestamp, self.data, self.prev_hash)
    }

    /// The block carries the hash of its own fields.
    pub open spec fn is_sealed(self) -> bool {
        self.hash == self.computed_hash()
    }
}

/// Reads the system clock: `std::time::SystemTime::now`, measured from
/// `std::time::UNIX_EPOCH` with `duration_since`, in whole seconds (`Duration::as_secs`);
/// `None` where the clock reads a time before the epoch (the error of `duration_since`).
/// Trusted, and nothing is stated of the result: it depends on the clock.
#[verifier::external_body]
fn unix_time_secs() -> Option<u64> {
    match std::time::SystemTime::now().duration_since(std::time::UNIX_EPOCH) {
        Ok(elapsed) => Some(elapsed.as_secs()),
        Err(_) => None,
    }
}

impl Clone for Block {
    fn clone(&self) -> (r: Self)
        ensures
            r@ == self@,
    {
        Block {
            index: self.index,
            timestamp: self.timestamp,
            data: clone_txs(&self.data),
            prev_hash: self.prev_hash.clone(),
            hash: self.hash.clone(),
        }
    }
}

impl Block {
    /// A block made at the given time, sealed with the hash of its fields.
    pub fn new_block_at(index: u32, prev_hash: String, data: Vec<Transaction>, timestamp: u64) -> (b: Block)
        ensures
            b@.index == index,
            b@.timestamp == timestamp,
            b@.data == txs_view(data@),
            b@.prev_hash == prev_hash@,
            b@.is_sealed(),
            b@.hash.len() == 64,
    {
        let mut block = Block { index, timestamp, data, prev_hash, hash: String::new() };
        block.hash = calculate_hash(&block);
        block
    }

    /// A block made now, sealed with the hash of its fields. Its timestamp is the number of
    /// seconds since the Unix epoch, or 0 where the clock reads a time before the epoch.
    pub fn new_block(index: u32, prev_hash: String, data: Vec<Transaction>) -> (b: Block)
        ensures
            b@.index == index,
            b@.data == txs_view(data@),
            b@.prev_hash == prev_hash@,
            b@.is_sealed(),
            b@.hash.len() == 64,
    {
        let timestamp = match unix_time_secs() {
            Some(secs) => secs,
            None => 0,
        };
        Block::new_block_at(index, prev_hash, data, timestamp)
    }
}

} // verus!
