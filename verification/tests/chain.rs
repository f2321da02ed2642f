use btclib::error::BtcError;
use btclib::types::{Block, BlockHeader, Blockchain, Timestamp, Transaction, TransactionInput, TransactionOutput};
use btclib::U256;

fn header(nonce: u64) -> BlockHeader {
    BlockHeader::new(
        Timestamp { seconds: 1_700_000_000, nanoseconds: 5 },
        nonce,
        [1u8; 32],
        [2u8; 32],
        U256([9, 0, 0, 0]),
    )
}

#[test]
fn block_header_new_keeps_its_fields() {
    let h = header(77);
    assert_eq!(h.timestamp, Timestamp { seconds: 1_700_000_000, nanoseconds: 5 });
    assert_eq!(h.nonce, 77);
    assert_eq!(h.prev_block_hash, [1u8; 32]);
    assert_eq!(h.merkle_root, [2u8; 32]);
    assert_eq!(h.target.0, [9, 0, 0, 0]);
}

#[test]
fn transaction_and_block_new_keep_their_parts() {
    let input = TransactionInput { prev_transaction_output_hash: [3u8; 32], signature: [4u8; 64] };
    let output = TransactionOutput { value: 50, unique_id: uuid::Uuid::nil(), pubkey: [5u8; 33] };
    let tx = Transaction::new(vec![input], vec![output]);
    assert_eq!(tx.inputs.len(), 1);
    assert_eq!(tx.inputs[0].prev_transaction_output_hash, [3u8; 32]);
    assert_eq!(tx.outputs[0].value, 50);
    let block = Block::new(header(1), vec![tx]);
    assert_eq!(block.header.nonce, 1);
    assert_eq!(block.transactions.len(), 1);
}

#[test]
fn blockchain_grows_at_the_end() {
    let mut chain = Blockchain::new();
    assert!(chain.blocks.is_empty());
    chain.add_block(Block::new(header(1), vec![]));
    chain.add_block(Block::new(header(2), vec![]));
    assert_eq!(chain.blocks.len(), 2);
    assert_eq!(chain.blocks[0].header.nonce, 1);
    assert_eq!(chain.blocks[1].header.nonce, 2);
}

#[test]
fn btc_error_messages() {
    assert_eq!(BtcError::InvalidTransaction.message(), "Invalid transaction");
    assert_eq!(BtcError::InvalidBlock.message(), "Invalid block");
    assert_eq!(BtcError::InvalidBlockHeader.message(), "Invalid block header");
    assert_eq!(BtcError::InvalidTransactionInput.message(), "Invalid transaction input");
    assert_eq!(BtcError::InvalidTransactionOutput.message(), "Invalid transaction output");
}
