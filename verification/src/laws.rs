//! Chain-wide accounting laws.
//!
//! The central one: a ledger grown only by successful appends holds, as its
//! unspent-output set, exactly the outputs its blocks created minus the
//! outputs its blocks consumed — provided no output hash was ever created
//! twice, the freshness that real hashes provide.

use vstd::prelude::*;

verus! {

use crate::block::{Block, block_created, block_spent};
use crate::chain::{Blockchain, chain_ok, lemma_chain_ok_prefix, replay_unspent};

/// Outputs created by all blocks of a chain.
pub open spec fn all_created(blocks: Seq<Block>) -> Set<Seq<u8>>
    decreases blocks.len(),
{
    if blocks.len() == 0 {
        Set::empty()
    } else {
        all_created(blocks.drop_last()).union(block_created(blocks.last()))
    }
}

/// Outputs consumed by all blocks of a chain.
pub open spec fn all_spent(blocks: Seq<Block>) -> Set<Seq<u8>>
    decreases blocks.len(),
{
    if blocks.len() == 0 {
        Set::empty()
    } else {
        all_spent(blocks.drop_last()).union(block_spent(blocks.last()))
    }
}

/// No output hash is created by two different blocks of the chain.
pub open spec fn fresh_creations(blocks: Seq<Block>) -> bool {
    forall|i: int, j: int|
        0 <= i < j < blocks.len() ==> (#[trigger] block_created(blocks[i])).disjoint(
            #[trigger] block_created(blocks[j]),
        )
}

/// Membership in the created outputs of a chain is witnessed by a block.
pub proof fn lemma_all_created_contains(blocks: Seq<Block>, x: Seq<u8>)
    ensures
        all_created(blocks).contains(x) <==> (exists|k: int|
            0 <= k < blocks.len() && (#[trigger] block_created(blocks[k])).contains(x)),
    decreases blocks.len(),
{
    if blocks.len() > 0 {
        let pre = blocks.drop_last();
        lemma_all_created_contains(pre, x);
        if all_created(blocks).contains(x) {
            if all_created(pre).contains(x) {
                let k = choose|k: int|
                    0 <= k < pre.len() && (#[trigger] block_created(pre[k])).contains(x);
                assert(block_created(blocks[k]).contains(x));
            } else {
                assert(block_created(blocks[blocks.len() - 1]).contains(x));
            }
        }
        if exists|k: int| 0 <= k < blocks.len() && (#[trigger] block_created(
            blocks[k],
        )).contains(x) {
            let k = choose|k: int|
                0 <= k < blocks.len() && (#[trigger] block_created(blocks[k])).contains(x);
            if k < blocks.len() - 1 {
                assert(block_created(pre[k]).contains(x));
            }
        }
    }
}

/// Membership in the consumed outputs of a chain is witnessed by a block.
pub proof fn lemma_all_spent_contains(blocks: Seq<Block>, x: Seq<u8>)
    ensures
        all_spent(blocks).contains(x) <==> (exists|k: int|
            0 <= k < blocks.len() && (#[trigger] block_spent(blocks[k])).contains(x)),
    decreases blocks.len(),
{
    if blocks.len() > 0 {
        let pre = blocks.drop_last();
        lemma_all_spent_contains(pre, x);
        if all_spent(blocks).contains(x) {
            if all_spent(pre).contains(x) {
                let k = choose|k: int|
                    0 <= k < pre.len() && (#[trigger] block_spent(pre[k])).contains(x);
                assert(block_spent(blocks[k]).contains(x));
            } else {
                assert(block_spent(blocks[blocks.len() - 1]).contains(x));
            }
        }
        if exists|k: int| 0 <= k < blocks.len() && (#[trigger] block_spent(
            blocks[k],
        )).contains(x) {
            let k = choose|k: int|
                0 <= k < blocks.len() && (#[trigger] block_spent(blocks[k])).contains(x);
            if k < blocks.len() - 1 {
                assert(block_spent(pre[k]).contains(x));
            }
        }
    }
}

/// Replaying a chain never leaves an output unspent that no block created.
pub proof fn lemma_replay_subset_created(blocks: Seq<Block>)
    ensures
        replay_unspent(blocks).subset_of(all_created(blocks)),
    decreases blocks.len(),
{
    if blocks.len() > 0 {
        lemma_replay_subset_created(blocks.drop_last());
    }
}

/// An output created by the last block of a fresh chain is consumed by no
/// block of that chain: every consumed output was unspent when consumed,
/// hence created strictly earlier, and freshness rules out a second creation.
proof fn lemma_fresh_last_created_never_spent(blocks: Seq<Block>, x: Seq<u8>)
    requires
        chain_ok(blocks),
        fresh_creations(blocks),
        blocks.len() > 0,
        block_created(blocks.last()).contains(x),
    ensures
        !all_spent(blocks).contains(x),
{
    let j = blocks.len() - 1;
    lemma_all_spent_contains(blocks, x);
    if all_spent(blocks).contains(x) {
        let k = choose|k: int|
            0 <= k < blocks.len() && (#[trigger] block_spent(blocks[k])).contains(x);
        assert(block_spent(blocks[k]).subset_of(replay_unspent(blocks.take(k))));
        lemma_replay_subset_created(blocks.take(k));
        lemma_all_created_contains(blocks.take(k), x);
        let m = choose|m: int|
            0 <= m < k && (#[trigger] block_created(blocks.take(k)[m])).contains(x);
        assert(block_created(blocks[m]).contains(x));
        assert(m < j);
        assert(block_created(blocks[m]).disjoint(block_created(blocks[j])));
    }
}

/// Replaying a chain whose created outputs are fresh yields exactly the
/// outputs created minus the outputs consumed.
pub proof fn lemma_replay_is_created_minus_spent(blocks: Seq<Block>)
    requires
        chain_ok(blocks),
        fresh_creations(blocks),
    ensures
        replay_unspent(blocks) == all_created(blocks).difference(all_spent(blocks)),
    decreases blocks.len(),
{
    if blocks.len() == 0 {
        assert(replay_unspent(blocks) =~= all_created(blocks).difference(all_spent(blocks)));
    } else {
        let pre = blocks.drop_last();
        let n = blocks.len() - 1;
        let b = blocks.last();
        assert(chain_ok(pre) && fresh_creations(pre)) by {
            assert forall|i: int|
                0 <= i < pre.len() implies (#[trigger] block_spent(pre[i])).subset_of(
                replay_unspent(pre.take(i)),
            ) by {
                assert(pre[i] == blocks[i]);
                assert(pre.take(i) =~= blocks.take(i));
                assert(block_spent(blocks[i]).subset_of(replay_unspent(blocks.take(i))));
            }
            assert forall|i: int, j: int|
                0 <= i < j < pre.len() implies (#[trigger] block_created(pre[i])).disjoint(
                #[trigger] block_created(pre[j]),
            ) by {
                assert(block_created(blocks[i]).disjoint(block_created(blocks[j])));
            }
        }
        lemma_replay_is_created_minus_spent(pre);

        let created = all_created(blocks);
        let spent = all_spent(blocks);
        assert forall|x: Seq<u8>| replay_unspent(blocks).contains(x) implies created.difference(
            spent,
        ).contains(x) by {
            if block_created(b).contains(x) {
                lemma_fresh_last_created_never_spent(blocks, x);
            } else {
                assert(all_created(pre).contains(x) && !all_spent(pre).contains(x)
                    && !block_spent(b).contains(x));
            }
        }
        assert forall|x: Seq<u8>| created.difference(spent).contains(x) implies replay_unspent(
            blocks,
        ).contains(x) by {
            if block_created(b).contains(x) {
            } else {
                assert(all_created(pre).contains(x) && !all_spent(pre).contains(x)
                    && !block_spent(b).contains(x));
            }
        }
        assert(replay_unspent(blocks) =~= created.difference(spent));
    }
}

/// Freshness restricts to every prefix of a chain.
proof fn lemma_fresh_prefix(blocks: Seq<Block>, n: int)
    requires
        fresh_creations(blocks),
        0 <= n <= blocks.len(),
    ensures
        fresh_creations(blocks.take(n)),
{
    let pre = blocks.take(n);
    assert forall|i: int, j: int|
        0 <= i < j < pre.len() implies (#[trigger] block_created(pre[i])).disjoint(
        #[trigger] block_created(pre[j]),
    ) by {
        assert(pre[i] == blocks[i] && pre[j] == blocks[j]);
        assert(block_created(blocks[i]).disjoint(block_created(blocks[j])));
    }
}

/// On a fresh chain, no two blocks consume the same output: an output spent
/// by the later block was still unspent then, while an output spent by the
/// earlier block is already recorded as consumed.
pub proof fn lemma_no_output_spent_twice(blocks: Seq<Block>)
    requires
        chain_ok(blocks),
        fresh_creations(blocks),
    ensures
        forall|j: int, k: int|
            0 <= j < k < blocks.len() ==> (#[trigger] block_spent(blocks[j])).disjoint(
                #[trigger] block_spent(blocks[k]),
            ),
{
    assert forall|j: int, k: int|
        0 <= j < k < blocks.len() implies (#[trigger] block_spent(blocks[j])).disjoint(
        #[trigger] block_spent(blocks[k]),
    ) by {
        let pre = blocks.take(k);
        lemma_chain_ok_prefix(blocks, k);
        lemma_fresh_prefix(blocks, k);
        lemma_replay_is_created_minus_spent(pre);
        assert forall|x: Seq<u8>| block_spent(blocks[j]).contains(x) implies !block_spent(
            blocks[k],
        ).contains(x) by {
            lemma_all_spent_contains(pre, x);
            assert(pre[j] == blocks[j]);
            assert(all_spent(pre).contains(x));
            if block_spent(blocks[k]).contains(x) {
                assert(block_spent(blocks[k]).subset_of(replay_unspent(blocks.take(k))));
                assert(replay_unspent(pre).contains(x));
            }
        }
    }
}

/// After any run of successful appends in which no output hash was created by
/// two different blocks, the ledger's unspent-output set equals the outputs
/// created by its committed blocks minus the outputs they consumed.
pub proof fn lemma_unspent_is_created_minus_consumed(c: &Blockchain)
    requires
        c.wf(),
        fresh_creations(c.blocks_view()),
    ensures
        c.unspent_view() == all_created(c.blocks_view()).difference(all_spent(c.blocks_view())),
{
    c.lemma_wf_invariants();
    lemma_replay_is_created_minus_spent(c.blocks_view());
}

} // verus!
