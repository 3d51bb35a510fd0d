//! The ledger: an append-only chain of blocks and the unspent-output set it
//! determines.
//!
//! [`Blockchain`] owns both and exposes a single mutating operation,
//! [`Blockchain::update_with_block`], which validates a candidate block in a
//! fixed order and either appends it atomically or rejects it with one
//! [`BlockValidationError`], leaving the state untouched.  The whole decision
//! is captured by the spec function [`spec_decide`].

use vstd::prelude::*;

verus! {

use crate::block::{
    Block, Transaction, block_created, block_spent, created_by_txs, lemma_created_by_txs_push,
    lemma_spent_by_txs_push, spent_by_txs, sum_fees, tx_fee, tx_inputs, tx_outputs,
};
use crate::hashes::{
    all_hashes_in, any_hash_in, contains_hash, distinct_hashes, hash_set, hashes_equal,
    insert_hashes, is_zero_hash, lemma_hash_set_empty, lemma_hash_set_len, remove_hashes,
    spec_zero_hash,
};
use crate::pow::{check_difficulty, spec_check_difficulty};

/// Why a candidate block was rejected.  Every rejection is a final, semantic
/// verdict on that block; none is transient.
#[derive(Clone, Copy, Debug, PartialEq, Eq, Structural)]
pub enum BlockValidationError {
    /// The candidate's index is not the current chain length.
    MismatchedIndex,
    /// The candidate's hash fails the proof-of-work predicate.
    InvalidHash,
    /// The candidate's timestamp does not exceed its predecessor's.
    NonMonotonicTimestamp,
    /// The candidate's previous-hash is not the predecessor's hash.
    MismatchedPreviousHash,
    /// At chain length zero, the previous-hash is not the all-zero sentinel.
    InvalidGenesisBlockFormat,
    /// A referenced input is not unspent, or is spent twice within the block.
    InvalidInput,
    /// A non-coinbase transaction's outputs exceed its inputs.
    InsufficientInputValue,
    /// The first transaction is not coinbase, or its output value does not
    /// cover the block's fees.
    InvalidCoinbaseTransaction,
}

/// Walks the non-coinbase transactions in order, carrying the outputs already
/// spent inside the block and the running fee; yields the final fee total, or
/// the first rejection.
pub open spec fn check_spends(
    unspent: Set<Seq<u8>>,
    txs: Seq<Transaction>,
    spent: Set<Seq<u8>>,
    fee: int,
) -> Result<int, BlockValidationError>
    decreases txs.len(),
{
    if txs.len() == 0 {
        Ok(fee)
    } else if !tx_inputs(txs[0]).subset_of(unspent) {
        Err(BlockValidationError::InvalidInput)
    } else if !tx_inputs(txs[0]).disjoint(spent) {
        Err(BlockValidationError::InvalidInput)
    } else if txs[0].output_value > txs[0].input_value {
        Err(BlockValidationError::InsufficientInputValue)
    } else {
        check_spends(unspent, txs.drop_first(), spent.union(tx_inputs(txs[0])), fee + tx_fee(txs[0]))
    }
}

/// Validates a block's transaction list against the unspent set.  An empty
/// list passes outright; otherwise the first transaction must be a coinbase
/// whose output value covers the fees of the remaining transactions, each of
/// which must spend only unspent outputs, none twice within the block, and
/// must not create more value than it consumes.
pub open spec fn check_transactions(unspent: Set<Seq<u8>>, txs: Seq<Transaction>) -> Result<
    (),
    BlockValidationError,
> {
    if txs.len() == 0 {
        Ok(())
    } else if !txs[0].coinbase {
        Err(BlockValidationError::InvalidCoinbaseTransaction)
    } else {
        match check_spends(unspent, txs.drop_first(), Set::empty(), 0) {
            Err(e) => Err(e),
            Ok(fee) => if (txs[0].output_value as int) < fee {
                Err(BlockValidationError::InvalidCoinbaseTransaction)
            } else {
                Ok(())
            },
        }
    }
}

/// The full admission decision for a candidate block against the current
/// chain and unspent set, in the fixed validation order: index, proof of
/// work, linkage (timestamp before previous-hash), then transactions.
pub open spec fn spec_decide(blocks: Seq<Block>, unspent: Set<Seq<u8>>, b: Block) -> Result<
    (),
    BlockValidationError,
> {
    if b.index as int != blocks.len() {
        Err(BlockValidationError::MismatchedIndex)
    } else if !spec_check_difficulty(b.hash@, b.difficulty) {
        Err(BlockValidationError::InvalidHash)
    } else if blocks.len() == 0 {
        if b.prev_block_hash@ != spec_zero_hash() {
            Err(BlockValidationError::InvalidGenesisBlockFormat)
        } else {
            check_transactions(unspent, b.transactions@)
        }
    } else if b.timestamp <= blocks.last().timestamp {
        Err(BlockValidationError::NonMonotonicTimestamp)
    } else if b.prev_block_hash@ != blocks.last().hash@ {
        Err(BlockValidationError::MismatchedPreviousHash)
    } else {
        check_transactions(unspent, b.transactions@)
    }
}

/// The unspent set after a block is applied: the outputs it consumes leave,
/// the outputs it creates enter.
pub open spec fn apply_block(unspent: Set<Seq<u8>>, b: Block) -> Set<Seq<u8>> {
    unspent.difference(block_spent(b)).union(block_created(b))
}

/// The unspent set determined by replaying a chain from nothing.
pub open spec fn replay_unspent(blocks: Seq<Block>) -> Set<Seq<u8>>
    decreases blocks.len(),
{
    if blocks.len() == 0 {
        Set::empty()
    } else {
        apply_block(replay_unspent(blocks.drop_last()), blocks.last())
    }
}

/// Per-block transaction facts that hold of every committed block: a
/// non-empty list starts with a coinbase whose output value covers the fees
/// of the remaining transactions, none of which creates more value than it
/// consumes, and no two of which reference the same output.
pub open spec fn block_txs_ok(b: Block) -> bool {
    b.transactions@.len() > 0 ==> {
        &&& b.transactions@[0].coinbase
        &&& forall|j: int|
            1 <= j < b.transactions@.len() ==> (#[trigger] b.transactions@[j]).output_value
                <= b.transactions@[j].input_value
        &&& b.transactions@[0].output_value >= sum_fees(b.transactions@.drop_first())
        &&& forall|j: int, k: int|
            1 <= j < k < b.transactions@.len() ==> (#[trigger] tx_inputs(
                b.transactions@[j],
            )).disjoint(#[trigger] tx_inputs(b.transactions@[k]))
    }
}

/// Invariants of a committed chain: gapless indices from zero, proof of work
/// on every block, sentinel linkage at the root and hash linkage above it,
/// strictly increasing timestamps, sound transaction lists, and every spent
/// output unspent at the time it was consumed.
pub open spec fn chain_ok(blocks: Seq<Block>) -> bool {
    &&& forall|i: int| 0 <= i < blocks.len() ==> (#[trigger] blocks[i]).index as int == i
    &&& forall|i: int|
        0 <= i < blocks.len() ==> spec_check_difficulty(
            (#[trigger] blocks[i]).hash@,
            blocks[i].difficulty,
        )
    &&& blocks.len() > 0 ==> blocks[0].prev_block_hash@ == spec_zero_hash()
    &&& forall|i: int|
        1 <= i < blocks.len() ==> (#[trigger] blocks[i]).prev_block_hash@ == blocks[i - 1].hash@
    &&& forall|i: int|
        1 <= i < blocks.len() ==> (#[trigger] blocks[i]).timestamp > blocks[i - 1].timestamp
    &&& forall|i: int| 0 <= i < blocks.len() ==> block_txs_ok(#[trigger] blocks[i])
    &&& forall|i: int|
        0 <= i < blocks.len() ==> (#[trigger] block_spent(blocks[i])).subset_of(
            replay_unspent(blocks.take(i)),
        )
}

/// The chain invariants restrict to every prefix of a chain.
pub proof fn lemma_chain_ok_prefix(blocks: Seq<Block>, n: int)
    requires
        chain_ok(blocks),
        0 <= n <= blocks.len(),
    ensures
        chain_ok(blocks.take(n)),
{
    let pre = blocks.take(n);
    assert forall|i: int| 0 <= i < pre.len() implies (#[trigger] pre[i]).index as int == i by {
        assert(pre[i] == blocks[i]);
    }
    assert forall|i: int|
        0 <= i < pre.len() implies spec_check_difficulty(
        (#[trigger] pre[i]).hash@,
        pre[i].difficulty,
    ) by {
        assert(pre[i] == blocks[i]);
        assert(spec_check_difficulty(blocks[i].hash@, blocks[i].difficulty));
    }
    if n > 0 {
        assert(pre[0] == blocks[0]);
    }
    assert forall|i: int|
        1 <= i < pre.len() implies (#[trigger] pre[i]).prev_block_hash@ == pre[i - 1].hash@ by {
        assert(pre[i] == blocks[i] && pre[i - 1] == blocks[i - 1]);
        assert(blocks[i].prev_block_hash@ == blocks[i - 1].hash@);
    }
    assert forall|i: int|
        1 <= i < pre.len() implies (#[trigger] pre[i]).timestamp > pre[i - 1].timestamp by {
        assert(pre[i] == blocks[i] && pre[i - 1] == blocks[i - 1]);
        assert(blocks[i].timestamp > blocks[i - 1].timestamp);
    }
    assert forall|i: int| 0 <= i < pre.len() implies block_txs_ok(#[trigger] pre[i]) by {
        assert(pre[i] == blocks[i]);
        assert(block_txs_ok(blocks[i]));
    }
    assert forall|i: int|
        0 <= i < pre.len() implies (#[trigger] block_spent(pre[i])).subset_of(
        replay_unspent(pre.take(i)),
    ) by {
        assert(pre[i] == blocks[i]);
        assert(pre.take(i) =~= blocks.take(i));
        assert(block_spent(blocks[i]).subset_of(replay_unspent(blocks.take(i))));
    }
}

/// A passing walk of a transaction list yields the accumulated fee, and
/// certifies that every transaction spends only unspent outputs, that no two
/// transactions of the list share an input, and that each conserves value.
pub proof fn lemma_check_spends_ok(
    u: Set<Seq<u8>>,
    txs: Seq<Transaction>,
    s0: Set<Seq<u8>>,
    f0: int,
)
    requires
        check_spends(u, txs, s0, f0) is Ok,
    ensures
        check_spends(u, txs, s0, f0) == Ok::<int, BlockValidationError>(f0 + sum_fees(txs)),
        forall|j: int|
            0 <= j < txs.len() ==> (#[trigger] txs[j]).output_value <= txs[j].input_value,
        spent_by_txs(txs).subset_of(u),
        forall|j: int| 0 <= j < txs.len() ==> (#[trigger] tx_inputs(txs[j])).disjoint(s0),
        forall|j: int, k: int|
            0 <= j < k < txs.len() ==> (#[trigger] tx_inputs(txs[j])).disjoint(
                #[trigger] tx_inputs(txs[k]),
            ),
    decreases txs.len(),
{
    if txs.len() == 0 {
        assert(spent_by_txs(txs).subset_of(u));
    } else {
        let rest = txs.drop_first();
        lemma_check_spends_ok(u, rest, s0.union(tx_inputs(txs[0])), f0 + tx_fee(txs[0]));
        assert forall|j: int|
            0 <= j < txs.len() implies (#[trigger] txs[j]).output_value
            <= txs[j].input_value by {
            if j >= 1 {
                assert(txs[j] == rest[j - 1]);
            }
        }
        assert(spent_by_txs(txs) == tx_inputs(txs[0]).union(spent_by_txs(rest)));
        assert forall|j: int|
            0 <= j < txs.len() implies (#[trigger] tx_inputs(txs[j])).disjoint(s0) by {
            if j >= 1 {
                assert(tx_inputs(rest[j - 1]).disjoint(s0.union(tx_inputs(txs[0]))));
                assert(txs[j] == rest[j - 1]);
            }
        }
        assert forall|j: int, k: int|
            0 <= j < k < txs.len() implies (#[trigger] tx_inputs(txs[j])).disjoint(
            #[trigger] tx_inputs(txs[k]),
        ) by {
            if j == 0 {
                assert(tx_inputs(rest[k - 1]).disjoint(s0.union(tx_inputs(txs[0]))));
                assert(txs[k] == rest[k - 1]);
                assert forall|x: Seq<u8>| tx_inputs(txs[j]).contains(x) implies !tx_inputs(
                    txs[k],
                ).contains(x) by {
                    assert(s0.union(tx_inputs(txs[0])).contains(x));
                }
            } else {
                assert(tx_inputs(rest[j - 1]).disjoint(tx_inputs(rest[k - 1])));
                assert(txs[j] == rest[j - 1] && txs[k] == rest[k - 1]);
            }
        }
    }
}

/// Appending a block the decision accepts preserves the chain invariants and
/// advances the replayed unspent set by exactly that block.
pub proof fn lemma_chain_extend(blocks: Seq<Block>, u: Set<Seq<u8>>, b: Block)
    requires
        chain_ok(blocks),
        u == replay_unspent(blocks),
        spec_decide(blocks, u, b) is Ok,
    ensures
        chain_ok(blocks.push(b)),
        replay_unspent(blocks.push(b)) == apply_block(u, b),
{
    let ext = blocks.push(b);
    let n = blocks.len() as int;
    assert(ext.drop_last() =~= blocks);
    assert(replay_unspent(ext) == apply_block(u, b));

    let txs = b.transactions@;
    assert(block_txs_ok(b) && block_spent(b).subset_of(u)) by {
        if txs.len() > 0 {
            lemma_check_spends_ok(u, txs.drop_first(), Set::empty(), 0);
            assert forall|j: int|
                1 <= j < txs.len() implies (#[trigger] txs[j]).output_value
                <= txs[j].input_value by {
                assert(txs[j] == txs.drop_first()[j - 1]);
            }
            assert forall|j: int, k: int|
                1 <= j < k < txs.len() implies (#[trigger] tx_inputs(txs[j])).disjoint(
                #[trigger] tx_inputs(txs[k]),
            ) by {
                assert(txs[j] == txs.drop_first()[j - 1] && txs[k] == txs.drop_first()[k - 1]);
                assert(tx_inputs(txs.drop_first()[j - 1]).disjoint(
                    tx_inputs(txs.drop_first()[k - 1]),
                ));
            }
        } else {
            assert(block_spent(b) =~= Set::<Seq<u8>>::empty());
        }
    }

    assert forall|i: int| 0 <= i < ext.len() implies (#[trigger] ext[i]).index as int == i by {
        if i < n {
            assert(blocks[i].index as int == i);
        }
    }
    assert forall|i: int|
        0 <= i < ext.len() implies spec_check_difficulty(
        (#[trigger] ext[i]).hash@,
        ext[i].difficulty,
    ) by {
        if i < n {
            assert(spec_check_difficulty(blocks[i].hash@, blocks[i].difficulty));
        }
    }
    assert(ext[0].prev_block_hash@ == spec_zero_hash()) by {
        if n == 0 {
            assert(ext[0] == b);
        } else {
            assert(ext[0] == blocks[0]);
        }
    }
    assert forall|i: int|
        1 <= i < ext.len() implies (#[trigger] ext[i]).prev_block_hash@ == ext[i - 1].hash@ by {
        if i < n {
            assert(blocks[i].prev_block_hash@ == blocks[i - 1].hash@);
        } else {
            assert(ext[i] == b && ext[i - 1] == blocks.last());
        }
    }
    assert forall|i: int|
        1 <= i < ext.len() implies (#[trigger] ext[i]).timestamp > ext[i - 1].timestamp by {
        if i < n {
            assert(blocks[i].timestamp > blocks[i - 1].timestamp);
        } else {
            assert(ext[i] == b && ext[i - 1] == blocks.last());
        }
    }
    assert forall|i: int| 0 <= i < ext.len() implies block_txs_ok(#[trigger] ext[i]) by {
        if i < n {
            assert(block_txs_ok(blocks[i]));
        }
    }
    assert forall|i: int|
        0 <= i < ext.len() implies (#[trigger] block_spent(ext[i])).subset_of(
        replay_unspent(ext.take(i)),
    ) by {
        assert(ext.take(i) =~= blocks.take(i));
        if i < n {
            assert(block_spent(blocks[i]).subset_of(replay_unspent(blocks.take(i))));
        } else {
            assert(blocks.take(i) =~= blocks);
        }
    }
}

/// The ledger: the committed block sequence and the unspent-output set it
/// determines.  Both are owned exclusively; callers read them through the
/// accessors and grow the chain only through [`Blockchain::update_with_block`].
pub struct Blockchain {
    blocks: Vec<Block>,
    unspent_outputs: Vec<Vec<u8>>,
}

impl Blockchain {
    /// The committed chain.
    pub closed spec fn blocks_view(&self) -> Seq<Block> {
        self.blocks@
    }

    /// The current unspent-output set.
    pub closed spec fn unspent_view(&self) -> Set<Seq<u8>> {
        hash_set(self.unspent_outputs@)
    }

    /// Internal consistency: the chain satisfies [`chain_ok`] and the stored
    /// unspent set is exactly the chain's replay, held without duplicates.
    pub closed spec fn wf(&self) -> bool {
        &&& chain_ok(self.blocks@)
        &&& hash_set(self.unspent_outputs@) == replay_unspent(self.blocks@)
        &&& distinct_hashes(self.unspent_outputs@)
    }

    /// Every well-formed ledger satisfies the chain invariants, and its
    /// unspent set is the one determined by replaying its chain.
    pub proof fn lemma_wf_invariants(&self)
        requires
            self.wf(),
        ensures
            chain_ok(self.blocks_view()),
            self.unspent_view() == replay_unspent(self.blocks_view()),
    {
    }

    /// Creates the empty ledger: no blocks, no unspent outputs.
    pub fn new() -> (r: Blockchain)
        ensures
            r.wf(),
            r.blocks_view() == Seq::<Block>::empty(),
            r.unspent_view() == Set::<Seq<u8>>::empty(),
    {
        let r = Blockchain { blocks: Vec::new(), unspent_outputs: Vec::new() };
        proof {
            lemma_hash_set_empty(r.unspent_outputs@);
            assert(r.blocks@ =~= Seq::<Block>::empty());
        }
        r
    }

    /// Number of committed blocks.
    pub fn block_count(&self) -> (n: usize)
        ensures
            n == self.blocks_view().len(),
    {
        self.blocks.len()
    }

    /// Read access to the committed block at position `i`.
    pub fn block_at(&self, i: usize) -> (b: &Block)
        requires
            i < self.blocks_view().len(),
        ensures
            *b == self.blocks_view()[i as int],
    {
        &self.blocks[i]
    }

    /// Whether `h` is currently an unspent output.
    pub fn is_unspent(&self, h: &Vec<u8>) -> (r: bool)
        ensures
            r <==> self.unspent_view().contains(h@),
    {
        contains_hash(&self.unspent_outputs, h)
    }

    /// Attempts to append a candidate block.
    ///
    /// The block is validated in a fixed order — index continuity, proof of
    /// work, linkage (timestamp before previous-hash), then the transaction
    /// list — and the first defect found decides the error, exactly as
    /// [`spec_decide`] states.  On success the block is appended and the
    /// unspent-output set moves forward by [`apply_block`], atomically; on
    /// failure the ledger is left untouched.
    ///
    /// A block with no transactions is accepted (its transaction checks are
    /// vacuous) and leaves the unspent set unchanged, and no upper bound is
    /// placed on the coinbase output value beyond covering the block's fees:
    /// both are deliberate policy choices of this ledger.
    pub fn update_with_block(&mut self, block: Block) -> (r: Result<(), BlockValidationError>)
        requires
            old(self).wf(),
        ensures
            final(self).wf(),
            r == spec_decide(old(self).blocks_view(), old(self).unspent_view(), block),
            r is Ok ==> final(self).blocks_view() == old(self).blocks_view().push(block)
                && final(self).unspent_view() == apply_block(old(self).unspent_view(), block),
            r is Err ==> final(self).blocks_view() == old(self).blocks_view()
                && final(self).unspent_view() == old(self).unspent_view(),
    {
        let ghost bs0 = self.blocks@;
        let ghost u0 = hash_set(self.unspent_outputs@);
        let ghost txs = block.transactions@;

        let i = self.blocks.len();

        if block.index as usize != i {
            return Err(BlockValidationError::MismatchedIndex);
        }
        if !check_difficulty(&block.hash, block.difficulty) {
            return Err(BlockValidationError::InvalidHash);
        }
        if i == 0 {
            if !is_zero_hash(&block.prev_block_hash) {
                return Err(BlockValidationError::InvalidGenesisBlockFormat);
            }
        } else {
            let prev = &self.blocks[i - 1];
            if block.timestamp <= prev.timestamp {
                return Err(BlockValidationError::NonMonotonicTimestamp);
            }
            if !hashes_equal(&block.prev_block_hash, &prev.hash) {
                return Err(BlockValidationError::MismatchedPreviousHash);
            }
        }
        proof {
            assert(spec_decide(bs0, u0, block) == check_transactions(u0, txs));
        }

        let n_txs = block.transactions.len();
        if n_txs > 0 {
            if !block.transactions[0].coinbase {
                return Err(BlockValidationError::InvalidCoinbaseTransaction);
            }
            let mut spent_in_block: Vec<Vec<u8>> = Vec::new();
            let mut created_in_block: Vec<Vec<u8>> = Vec::new();
            let mut total_fee: u128 = 0;
            proof {
                lemma_hash_set_empty(spent_in_block@);
                lemma_hash_set_empty(created_in_block@);
                assert(txs.skip(1) =~= txs.drop_first());
                assert(txs.subrange(1, 1) =~= Seq::<Transaction>::empty());
                lemma_hash_set_empty(Seq::<Vec<u8>>::empty());
                assert(spent_by_txs(txs.subrange(1, 1)) == Set::<Seq<u8>>::empty());
                assert(created_by_txs(txs.subrange(1, 1)) == Set::<Seq<u8>>::empty());
            }
            let mut t: usize = 1;
            while t < n_txs
                invariant
                    1 <= t <= n_txs,
                    n_txs == block.transactions@.len(),
                    txs == block.transactions@,
                    txs.len() > 0,
                    txs[0].coinbase,
                    self.blocks@ == bs0,
                    self.unspent_outputs@ == old(self).unspent_outputs@,
                    self.wf(),
                    u0 == hash_set(self.unspent_outputs@),
                    spec_decide(bs0, u0, block) == check_transactions(u0, txs),
                    check_spends(u0, txs.drop_first(), Set::empty(), 0) == check_spends(
                        u0,
                        txs.skip(t as int),
                        hash_set(spent_in_block@),
                        total_fee as int,
                    ),
                    hash_set(spent_in_block@) == spent_by_txs(txs.subrange(1, t as int)),
                    hash_set(created_in_block@) == created_by_txs(txs.subrange(1, t as int)),
                    total_fee as int <= (t - 1) * 0xffff_ffff_ffff_ffff,
                decreases n_txs - t,
            {
                let tx = &block.transactions[t];
                proof {
                    assert(txs.skip(t as int)[0] == txs[t as int]);
                    assert(txs.skip(t as int).len() > 0);
                }
                if !all_hashes_in(&tx.input_hashes, &self.unspent_outputs) {
                    proof {
                        assert(check_transactions(u0, txs) == Err::<(), BlockValidationError>(
                            BlockValidationError::InvalidInput,
                        ));
                    }
                    return Err(BlockValidationError::InvalidInput);
                }
                if any_hash_in(&tx.input_hashes, &spent_in_block) {
                    proof {
                        assert(check_transactions(u0, txs) == Err::<(), BlockValidationError>(
                            BlockValidationError::InvalidInput,
                        ));
                    }
                    return Err(BlockValidationError::InvalidInput);
                }
                if tx.output_value > tx.input_value {
                    proof {
                        assert(check_transactions(u0, txs) == Err::<(), BlockValidationError>(
                            BlockValidationError::InsufficientInputValue,
                        ));
                    }
                    return Err(BlockValidationError::InsufficientInputValue);
                }
                let fee = tx.input_value - tx.output_value;
                proof {
                    assert(total_fee + fee as u128 <= t * 0xffff_ffff_ffff_ffff);
                    assert(t * 0xffff_ffff_ffff_ffff <= 0xffff_ffff_ffff_ffff
                        * 0xffff_ffff_ffff_ffff);
                }
                total_fee = total_fee + fee as u128;
                let ghost spent_before = spent_in_block@;
                insert_hashes(&mut spent_in_block, &tx.input_hashes);
                insert_hashes(&mut created_in_block, &tx.output_hashes);
                proof {
                    assert(txs.subrange(1, t + 1) =~= txs.subrange(1, t as int).push(
                        txs[t as int],
                    ));
                    lemma_spent_by_txs_push(txs.subrange(1, t as int), txs[t as int]);
                    lemma_created_by_txs_push(txs.subrange(1, t as int), txs[t as int]);
                    assert(hash_set(spent_in_block@) == spent_by_txs(txs.subrange(1, t + 1)));
                    assert(hash_set(created_in_block@) == created_by_txs(txs.subrange(1, t + 1)));
                    assert(txs.skip(t as int).drop_first() =~= txs.skip(t + 1));
                    assert(check_spends(
                        u0,
                        txs.skip(t as int),
                        hash_set(spent_before),
                        (total_fee - fee as u128) as int,
                    ) == check_spends(
                        u0,
                        txs.skip(t + 1),
                        hash_set(spent_in_block@),
                        total_fee as int,
                    ));
                }
                t += 1;
            }
            proof {
                assert(txs.skip(t as int) =~= Seq::<Transaction>::empty());
                assert(check_spends(
                    u0,
                    txs.skip(t as int),
                    hash_set(spent_in_block@),
                    total_fee as int,
                ) == Ok::<int, BlockValidationError>(total_fee as int));
            }
            let coinbase_value = block.transactions[0].output_value;
            if (coinbase_value as u128) < total_fee {
                proof {
                    assert(check_transactions(u0, txs) == Err::<(), BlockValidationError>(
                        BlockValidationError::InvalidCoinbaseTransaction,
                    ));
                }
                return Err(BlockValidationError::InvalidCoinbaseTransaction);
            }
            insert_hashes(&mut created_in_block, &block.transactions[0].output_hashes);
            proof {
                assert(check_transactions(u0, txs) == Ok::<(), BlockValidationError>(()));
                assert(txs.subrange(1, n_txs as int) =~= txs.drop_first());
                assert(hash_set(spent_in_block@) == block_spent(block));
                assert(created_by_txs(txs) == tx_outputs(txs[0]).union(
                    created_by_txs(txs.drop_first()),
                ));
                assert(hash_set(created_in_block@) =~= block_created(block));
            }
            remove_hashes(&mut self.unspent_outputs, &spent_in_block);
            insert_hashes(&mut self.unspent_outputs, &created_in_block);
            proof {
                assert(hash_set(self.unspent_outputs@) == apply_block(u0, block));
            }
        } else {
            proof {
                assert(check_transactions(u0, txs) == Ok::<(), BlockValidationError>(()));
                assert(block_spent(block) =~= Set::<Seq<u8>>::empty());
                assert(created_by_txs(txs) =~= Set::<Seq<u8>>::empty());
                assert(hash_set(self.unspent_outputs@) =~= apply_block(u0, block));
            }
        }
        proof {
            lemma_chain_extend(bs0, u0, block);
        }
        self.blocks.push(block);
        Ok(())
    }

    /// Number of currently unspent outputs.
    pub fn unspent_count(&self) -> (n: usize)
        requires
            self.wf(),
        ensures
            n == self.unspent_view().len(),
    {
        proof {
            lemma_hash_set_len(self.unspent_outputs@);
        }
        self.unspent_outputs.len()
    }
}

} // verus!
