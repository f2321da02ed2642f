use vstd::prelude::*;

use crate::u256::U256;
use uuid::Uuid;

verus! {

#[verifier::external_type_specification]
#[verifier::external_body]
pub struct ExUuid(Uuid);

/// A point in time in UTC: whole seconds since the Unix epoch and the
/// nanoseconds past that second, as `chrono::DateTime<Utc>` holds it.
#[derive(Clone, Copy, Debug, PartialEq, Eq, Structural)]
pub struct Timestamp {
    pub seconds: i64,
    pub nanoseconds: u32,
}

/// A chain of blocks, oldest first.
pub struct Blockchain {
    pub blocks: Vec<Block>,
}

impl Blockchain {
    /// An empty chain.
    pub fn new() -> (chain: Blockchain)
        ensures
            chain.blocks@.len() == 0,
    {
        Blockchain { blocks: Vec::new() }
    }

    /// Appends `block` at the end of the chain.
    pub fn add_block(&mut self, block: Block)
        ensures
            final(self).blocks@ == old(self).blocks@.push(block),
    {
        self.blocks.push(block);
    }
}

pub struct BlockHeader {
    /// Timestamp of the block
    pub timestamp: Timestamp,
    /// Nonce used to mine the block
    pub nonce: u64,
    /// Hash of the previous block
    pub prev_block_hash: [u8; 32],
    /// Merkle root of the block's transactions
    pub merkle_root: [u8; 32],
    /// Target
    pub target: U256,
}

impl BlockHeader {
    pub fn new(
        timestamp: Timestamp,
        nonce: u64,
        prev_block_hash: [u8; 32],
        merkle_root: [u8; 32],
        target: U256,
    ) -> (header: BlockHeader)
        ensures
            header.timestamp == timestamp,
            header.nonce == nonce,
            header.prev_block_hash == prev_block_hash,
            header.merkle_root == merkle_root,
            header.target == target,
    {
        BlockHeader { timestamp, nonce, prev_block_hash, merkle_root, target }
    }
}

pub struct Block {
    pub header: BlockHeader,
    pub transactions: Vec<Transaction>,
}

impl Block {
    pub fn new(header: BlockHeader, transactions: Vec<Transaction>) -> (block: Block)
        ensures
            block.header == header,
            block.transactions == transactions,
    {
        Block { header, transactions }
    }
}

pub struct Transaction {
    pub inputs: Vec<TransactionInput>,
    pub outputs: Vec<TransactionOutput>,
}

#[derive(Clone, Copy)]
pub struct TransactionInput {
    pub prev_transaction_output_hash: [u8; 32],
    /// Stands in for a signature over the spent output.
    pub signature: [u8; 64],
}

#[derive(Clone, Copy)]
pub struct TransactionOutput {
    pub value: u64,
    pub unique_id: Uuid,
    /// Stands in for the public key that may spend this output.
    pub pubkey: [u8; 33],
}

impl Transaction {
    pub fn new(inputs: Vec<TransactionInput>, outputs: Vec<TransactionOutput>) -> (tx: Transaction)
        ensures
            tx.inputs == inputs,
            tx.outputs == outputs,
    {
        Transaction { inputs, outputs }
    }
}

} // verus!
