//! Blocks and transactions, as the ledger observes them.
//!
//! A transaction is seen through its input references, its created outputs,
//! its coinbase flag and its aggregate values; a block through its header
//! fields and its ordered transaction list.  The spec functions here give the
//! sets of output hashes a transaction list consumes and creates, and the
//! total fee it carries.

use vstd::prelude::*;

verus! {

use crate::hashes::hash_set;

/// A transaction: references to the outputs it consumes, the outputs it
/// creates, whether it is the block-reward transaction, and its aggregate
/// input and output values.
#[derive(Clone, Debug)]
pub struct Transaction {
    /// Marks the block-reward transaction.
    pub coinbase: bool,
    /// Hashes of the outputs this transaction consumes.
    pub input_hashes: Vec<Vec<u8>>,
    /// Hashes of the outputs this transaction creates.
    pub output_hashes: Vec<Vec<u8>>,
    /// Aggregate value entering the transaction.
    pub input_value: u64,
    /// Aggregate value leaving the transaction.
    pub output_value: u64,
}

/// A candidate or committed block.
#[derive(Clone, Debug)]
pub struct Block {
    /// Position the block claims in the chain.
    pub index: u32,
    /// Creation time, in a monotonic unit.
    pub timestamp: u64,
    /// Hash of the preceding block, or the all-zero sentinel at index 0.
    pub prev_block_hash: Vec<u8>,
    /// The block's own hash.
    pub hash: Vec<u8>,
    /// Difficulty target the block's hash must meet.
    pub difficulty: u128,
    /// Ordered transactions; the first of a non-empty list must be coinbase.
    pub transactions: Vec<Transaction>,
}

/// The set of output hashes a transaction consumes.
pub open spec fn tx_inputs(t: Transaction) -> Set<Seq<u8>> {
    hash_set(t.input_hashes@)
}

/// The set of output hashes a transaction creates.
pub open spec fn tx_outputs(t: Transaction) -> Set<Seq<u8>> {
    hash_set(t.output_hashes@)
}

/// Fee of a transaction: what enters it less what leaves it.
pub open spec fn tx_fee(t: Transaction) -> int {
    t.input_value - t.output_value
}

/// Total fee carried by a list of transactions.
pub open spec fn sum_fees(txs: Seq<Transaction>) -> int
    decreases txs.len(),
{
    if txs.len() == 0 {
        0
    } else {
        tx_fee(txs[0]) + sum_fees(txs.drop_first())
    }
}

/// Outputs consumed by a list of transactions.
pub open spec fn spent_by_txs(txs: Seq<Transaction>) -> Set<Seq<u8>>
    decreases txs.len(),
{
    if txs.len() == 0 {
        Set::empty()
    } else {
        tx_inputs(txs[0]).union(spent_by_txs(txs.drop_first()))
    }
}

/// Outputs created by a list of transactions.
pub open spec fn created_by_txs(txs: Seq<Transaction>) -> Set<Seq<u8>>
    decreases txs.len(),
{
    if txs.len() == 0 {
        Set::empty()
    } else {
        tx_outputs(txs[0]).union(created_by_txs(txs.drop_first()))
    }
}

/// Outputs a block consumes: those referenced by its non-coinbase
/// transactions.
pub open spec fn block_spent(b: Block) -> Set<Seq<u8>> {
    if b.transactions@.len() == 0 {
        Set::empty()
    } else {
        spent_by_txs(b.transactions@.drop_first())
    }
}

/// Outputs a block creates: those of all its transactions.
pub open spec fn block_created(b: Block) -> Set<Seq<u8>> {
    created_by_txs(b.transactions@)
}

/// Consumed outputs accumulate one transaction at a time.
pub proof fn lemma_spent_by_txs_push(txs: Seq<Transaction>, t: Transaction)
    ensures
        spent_by_txs(txs.push(t)) == spent_by_txs(txs).union(tx_inputs(t)),
    decreases txs.len(),
{
    if txs.len() == 0 {
        assert(txs.push(t).drop_first() =~= Seq::<Transaction>::empty());
        assert(spent_by_txs(txs.push(t).drop_first()) == Set::<Seq<u8>>::empty());
        assert(spent_by_txs(txs.push(t)) =~= spent_by_txs(txs).union(tx_inputs(t)));
    } else {
        assert(txs.push(t).drop_first() =~= txs.drop_first().push(t));
        lemma_spent_by_txs_push(txs.drop_first(), t);
        assert(spent_by_txs(txs.push(t).drop_first()) == spent_by_txs(txs.drop_first()).union(
            tx_inputs(t),
        ));
        assert(spent_by_txs(txs.push(t)) =~= spent_by_txs(txs).union(tx_inputs(t)));
    }
}

/// Created outputs accumulate one transaction at a time.
pub proof fn lemma_created_by_txs_push(txs: Seq<Transaction>, t: Transaction)
    ensures
        created_by_txs(txs.push(t)) == created_by_txs(txs).union(tx_outputs(t)),
    decreases txs.len(),
{
    if txs.len() == 0 {
        assert(txs.push(t).drop_first() =~= Seq::<Transaction>::empty());
        assert(created_by_txs(txs.push(t).drop_first()) == Set::<Seq<u8>>::empty());
        assert(created_by_txs(txs.push(t)) =~= created_by_txs(txs).union(tx_outputs(t)));
    } else {
        assert(txs.push(t).drop_first() =~= txs.drop_first().push(t));
        lemma_created_by_txs_push(txs.drop_first(), t);
        assert(created_by_txs(txs.push(t).drop_first()) == created_by_txs(txs.drop_first()).union(
            tx_outputs(t),
        ));
        assert(created_by_txs(txs.push(t)) =~= created_by_txs(txs).union(tx_outputs(t)));
    }
}

} // verus!
