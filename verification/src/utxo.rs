//! What blocks do to a set of unspent outputs.

use crate::block::BlockView;
use crate::transaction::{Output, TransactionView};
use vstd::prelude::*;

verus! {

/// Every output that some transaction of the list spends.
pub open spec fn spent_by(transactions: Seq<TransactionView>) -> Set<Output>
    decreases transactions.len(),
{
    if transactions.len() == 0 {
        Set::empty()
    } else {
        spent_by(transactions.drop_last()).union(transactions.last().input_set())
    }
}

/// Every output that some transaction of the list creates.
pub open spec fn created_by(transactions: Seq<TransactionView>) -> Set<Output>
    decreases transactions.len(),
{
    if transactions.len() == 0 {
        Set::empty()
    } else {
        created_by(transactions.drop_last()).union(transactions.last().output_set())
    }
}

/// The unspent outputs after a block: what its transactions spend leaves,
/// then what they create is added.
pub open spec fn apply_block(unspent: Set<Output>, block: BlockView) -> Set<Output> {
    unspent.difference(spent_by(block.transactions)).union(created_by(block.transactions))
}

/// The unspent outputs after a chain of blocks, applied from the first on,
/// starting from nothing.
pub open spec fn replay(blocks: Seq<(BlockView, u128)>) -> Set<Output>
    decreases blocks.len(),
{
    if blocks.len() == 0 {
        Set::empty()
    } else {
        apply_block(replay(blocks.drop_last()), blocks.last().0)
    }
}

/// The hashes of the blocks of a chain.
pub open spec fn hashes_of(blocks: Seq<(BlockView, u128)>) -> Set<Seq<char>> {
    Set::new(|h: Seq<char>| exists|i: int| 0 <= i < blocks.len() && #[trigger] blocks[i].0.hash == h)
}

/// Whether the transaction at `index` may follow those before it: each of
/// its inputs is unspent, none was spent earlier in the list, and it creates
/// exactly what it spends.
pub open spec fn transaction_admissible(
    unspent: Set<Output>,
    transactions: Seq<TransactionView>,
    index: int,
) -> bool {
    let t = transactions[index];
    &&& t.input_set().subset_of(unspent)
    &&& t.input_set().disjoint(spent_by(transactions.take(index)))
    &&& t.is_balanced()
}

/// Whether every transaction of the list may follow those before it.
pub open spec fn transactions_admissible(
    unspent: Set<Output>,
    transactions: Seq<TransactionView>,
) -> bool {
    forall|i: int|
        0 <= i < transactions.len() ==> #[trigger] transaction_admissible(
            unspent,
            transactions,
            i,
        )
}

/// The hashes of a chain with one more block are those of the chain and the
/// hash of that block.
pub proof fn lemma_hashes_of_push(blocks: Seq<(BlockView, u128)>, block: BlockView, at: u128)
    ensures
        hashes_of(blocks.push((block, at))) == hashes_of(blocks).insert(block.hash),
{
    let longer = blocks.push((block, at));
    assert forall|h: Seq<char>| hashes_of(longer).contains(h) <==> hashes_of(blocks).insert(
        block.hash,
    ).contains(h) by {
        if hashes_of(longer).contains(h) {
            let i = choose|i: int| 0 <= i < longer.len() && #[trigger] longer[i].0.hash == h;
            if i < blocks.len() {
                assert(blocks[i].0.hash == h);
            }
        }
        if hashes_of(blocks).contains(h) {
            let i = choose|i: int| 0 <= i < blocks.len() && #[trigger] blocks[i].0.hash == h;
            assert(longer[i].0.hash == h);
        }
        if h == block.hash {
            assert(longer[blocks.len() as int].0.hash == h);
        }
    }
    assert(hashes_of(longer) =~= hashes_of(blocks).insert(block.hash));
}

/// Replaying a chain with one more block applies that block to the replay
/// of the chain.
pub proof fn lemma_replay_push(blocks: Seq<(BlockView, u128)>, block: BlockView, at: u128)
    ensures
        replay(blocks.push((block, at))) == apply_block(replay(blocks), block),
{
    assert(blocks.push((block, at)).drop_last() =~= blocks);
}

} // verus!
