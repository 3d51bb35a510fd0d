use utxo_ledger::block::{Block, Transaction};
use utxo_ledger::chain::{BlockValidationError, Blockchain};

/// The all-zero sentinel a genesis block must link to.
fn zero_hash() -> Vec<u8> {
    vec![0u8; 32]
}

/// A 32-byte hash, distinguished by its first byte, whose trailing sixteen
/// bytes are zero so it passes any positive difficulty target.
fn easy_hash(tag: u8) -> Vec<u8> {
    let mut h = vec![0u8; 32];
    h[0] = tag;
    h
}

fn coinbase(output_hashes: Vec<Vec<u8>>, output_value: u64) -> Transaction {
    Transaction {
        coinbase: true,
        input_hashes: Vec::new(),
        output_hashes,
        input_value: 0,
        output_value,
    }
}

fn spend(
    input_hashes: Vec<Vec<u8>>,
    input_value: u64,
    output_hashes: Vec<Vec<u8>>,
    output_value: u64,
) -> Transaction {
    Transaction {
        coinbase: false,
        input_hashes,
        output_hashes,
        input_value,
        output_value,
    }
}

fn block(index: u32, timestamp: u64, prev: Vec<u8>, hash: Vec<u8>, txs: Vec<Transaction>) -> Block {
    Block {
        index,
        timestamp,
        prev_block_hash: prev,
        hash,
        difficulty: u128::MAX,
        transactions: txs,
    }
}

/// A valid genesis block whose coinbase creates the given outputs.
fn genesis(output_hashes: Vec<Vec<u8>>, output_value: u64) -> Block {
    block(
        0,
        1,
        zero_hash(),
        easy_hash(1),
        vec![coinbase(output_hashes, output_value)],
    )
}

#[test]
fn genesis_accepted_and_outputs_unspent() {
    let mut chain = Blockchain::new();
    let out = easy_hash(0xa1);
    let r = chain.update_with_block(genesis(vec![out.clone()], 50));
    assert_eq!(r, Ok(()));
    assert_eq!(chain.block_count(), 1);
    assert_eq!(chain.unspent_count(), 1);
    assert!(chain.is_unspent(&out));
    assert!(!chain.is_unspent(&easy_hash(0xa2)));
}

#[test]
fn empty_block_accepted_unspent_unchanged() {
    let mut chain = Blockchain::new();
    let r = chain.update_with_block(block(0, 1, zero_hash(), easy_hash(1), Vec::new()));
    assert_eq!(r, Ok(()));
    assert_eq!(chain.block_count(), 1);
    assert_eq!(chain.unspent_count(), 0);
}

#[test]
fn index_gap_rejected_on_empty_chain() {
    let mut chain = Blockchain::new();
    let r = chain.update_with_block(block(2, 1, zero_hash(), easy_hash(1), Vec::new()));
    assert_eq!(r, Err(BlockValidationError::MismatchedIndex));
    assert_eq!(chain.block_count(), 0);
}

#[test]
fn index_gap_rejected_on_chain_of_one() {
    let mut chain = Blockchain::new();
    assert_eq!(chain.update_with_block(genesis(vec![easy_hash(0xa1)], 50)), Ok(()));
    let r = chain.update_with_block(block(2, 2, easy_hash(1), easy_hash(2), Vec::new()));
    assert_eq!(r, Err(BlockValidationError::MismatchedIndex));
    assert_eq!(chain.block_count(), 1);
}

#[test]
fn failing_proof_of_work_rejected() {
    let mut chain = Blockchain::new();
    let mut b = genesis(vec![easy_hash(0xa1)], 50);
    b.difficulty = 0;
    assert_eq!(
        chain.update_with_block(b),
        Err(BlockValidationError::InvalidHash)
    );
}

#[test]
fn short_hash_rejected() {
    let mut chain = Blockchain::new();
    let mut b = genesis(vec![easy_hash(0xa1)], 50);
    b.hash = vec![0u8; 31];
    assert_eq!(
        chain.update_with_block(b),
        Err(BlockValidationError::InvalidHash)
    );
}

#[test]
fn genesis_with_wrong_previous_hash_rejected() {
    let mut chain = Blockchain::new();
    let mut b = genesis(vec![easy_hash(0xa1)], 50);
    b.prev_block_hash = easy_hash(7);
    assert_eq!(
        chain.update_with_block(b),
        Err(BlockValidationError::InvalidGenesisBlockFormat)
    );
    assert_eq!(chain.block_count(), 0);
}

#[test]
fn stale_timestamp_rejected_before_previous_hash() {
    let mut chain = Blockchain::new();
    assert_eq!(chain.update_with_block(genesis(vec![easy_hash(0xa1)], 50)), Ok(()));
    // Timestamp equal to the predecessor's, and a wrong previous-hash too:
    // the timestamp check comes first.
    let b = block(1, 1, easy_hash(99), easy_hash(2), Vec::new());
    assert_eq!(
        chain.update_with_block(b),
        Err(BlockValidationError::NonMonotonicTimestamp)
    );
    assert_eq!(chain.block_count(), 1);
}

#[test]
fn wrong_previous_hash_rejected() {
    let mut chain = Blockchain::new();
    assert_eq!(chain.update_with_block(genesis(vec![easy_hash(0xa1)], 50)), Ok(()));
    let b = block(1, 2, easy_hash(99), easy_hash(2), Vec::new());
    assert_eq!(
        chain.update_with_block(b),
        Err(BlockValidationError::MismatchedPreviousHash)
    );
}

#[test]
fn first_transaction_must_be_coinbase() {
    let mut chain = Blockchain::new();
    let mut b = genesis(vec![easy_hash(0xa1)], 50);
    b.transactions[0].coinbase = false;
    assert_eq!(
        chain.update_with_block(b),
        Err(BlockValidationError::InvalidCoinbaseTransaction)
    );
}

#[test]
fn unknown_input_rejected() {
    let mut chain = Blockchain::new();
    assert_eq!(chain.update_with_block(genesis(vec![easy_hash(0xa1)], 50)), Ok(()));
    let b = block(
        1,
        2,
        easy_hash(1),
        easy_hash(2),
        vec![
            coinbase(vec![easy_hash(0xb0)], 0),
            spend(vec![easy_hash(0xcc)], 10, vec![easy_hash(0xb1)], 10),
        ],
    );
    assert_eq!(
        chain.update_with_block(b),
        Err(BlockValidationError::InvalidInput)
    );
}

#[test]
fn in_block_double_spend_rejected() {
    let mut chain = Blockchain::new();
    let out = easy_hash(0xa1);
    assert_eq!(chain.update_with_block(genesis(vec![out.clone()], 100)), Ok(()));
    let b = block(
        1,
        2,
        easy_hash(1),
        easy_hash(2),
        vec![
            coinbase(vec![easy_hash(0xb0)], 0),
            spend(vec![out.clone()], 100, vec![easy_hash(0xb1)], 100),
            spend(vec![out.clone()], 100, vec![easy_hash(0xb2)], 100),
        ],
    );
    assert_eq!(
        chain.update_with_block(b),
        Err(BlockValidationError::InvalidInput)
    );
    // Nothing changed: the first spend of the pair was not committed either.
    assert_eq!(chain.block_count(), 1);
    assert_eq!(chain.unspent_count(), 1);
    assert!(chain.is_unspent(&out));
}

#[test]
fn overspending_transaction_rejected() {
    let mut chain = Blockchain::new();
    let out = easy_hash(0xa1);
    assert_eq!(chain.update_with_block(genesis(vec![out.clone()], 100)), Ok(()));
    let b = block(
        1,
        2,
        easy_hash(1),
        easy_hash(2),
        vec![
            coinbase(vec![easy_hash(0xb0)], 0),
            spend(vec![out.clone()], 100, vec![easy_hash(0xb1)], 101),
        ],
    );
    assert_eq!(
        chain.update_with_block(b),
        Err(BlockValidationError::InsufficientInputValue)
    );
}

#[test]
fn fee_conserving_block_accepted() {
    let mut chain = Blockchain::new();
    let funded = easy_hash(0xa1);
    assert_eq!(chain.update_with_block(genesis(vec![funded.clone()], 100)), Ok(()));
    let reward = easy_hash(0xb0);
    let change = easy_hash(0xb1);
    let b = block(
        1,
        2,
        easy_hash(1),
        easy_hash(2),
        vec![
            coinbase(vec![reward.clone()], 10),
            spend(vec![funded.clone()], 100, vec![change.clone()], 90),
        ],
    );
    assert_eq!(chain.update_with_block(b), Ok(()));
    assert_eq!(chain.block_count(), 2);
    // The consumed output left the unspent set; the new outputs entered it.
    assert!(!chain.is_unspent(&funded));
    assert!(chain.is_unspent(&reward));
    assert!(chain.is_unspent(&change));
    assert_eq!(chain.unspent_count(), 2);
}

#[test]
fn coinbase_shortfall_rejected() {
    let mut chain = Blockchain::new();
    let funded = easy_hash(0xa1);
    assert_eq!(chain.update_with_block(genesis(vec![funded.clone()], 100)), Ok(()));
    let b = block(
        1,
        2,
        easy_hash(1),
        easy_hash(2),
        vec![
            coinbase(vec![easy_hash(0xb0)], 9),
            spend(vec![funded.clone()], 100, vec![easy_hash(0xb1)], 90),
        ],
    );
    assert_eq!(
        chain.update_with_block(b),
        Err(BlockValidationError::InvalidCoinbaseTransaction)
    );
    assert!(chain.is_unspent(&funded));
    assert_eq!(chain.unspent_count(), 1);
}

#[test]
fn output_spent_in_an_earlier_block_rejected() {
    let mut chain = Blockchain::new();
    let funded = easy_hash(0xa1);
    assert_eq!(chain.update_with_block(genesis(vec![funded.clone()], 100)), Ok(()));
    let b1 = block(
        1,
        2,
        easy_hash(1),
        easy_hash(2),
        vec![
            coinbase(vec![easy_hash(0xb0)], 0),
            spend(vec![funded.clone()], 100, vec![easy_hash(0xb1)], 100),
        ],
    );
    assert_eq!(chain.update_with_block(b1), Ok(()));
    // The same output again, in a later block: it is no longer unspent.
    let b2 = block(
        2,
        3,
        easy_hash(2),
        easy_hash(3),
        vec![
            coinbase(vec![easy_hash(0xc0)], 0),
            spend(vec![funded.clone()], 100, vec![easy_hash(0xc1)], 100),
        ],
    );
    assert_eq!(
        chain.update_with_block(b2),
        Err(BlockValidationError::InvalidInput)
    );
    assert_eq!(chain.block_count(), 2);
}

#[test]
fn committed_blocks_are_readable() {
    let mut chain = Blockchain::new();
    assert_eq!(chain.update_with_block(genesis(vec![easy_hash(0xa1)], 50)), Ok(()));
    let b = chain.block_at(0);
    assert_eq!(b.index, 0);
    assert_eq!(b.timestamp, 1);
    assert_eq!(b.hash, easy_hash(1));
    assert_eq!(b.transactions.len(), 1);
}
