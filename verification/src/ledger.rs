//! The rules of the network, stated over what the network is in contracts:
//! how a predecessor is resolved, when a block is rejected, and what the
//! network holds after a block was accepted.

use crate::block::{has_leading_zeroes, BlockView};
use crate::blockchain::ChainView;
use crate::error::LedgerError;
use crate::fork_choice::{
    empty_state, heads_of, lemma_winner_exists, winner_index, ForkView, HeadView, StateView,
};
use crate::recent::{RecentCacheView, RecentView};
use crate::transaction::Output;
use crate::utxo::{apply_block, hashes_of, replay, transactions_admissible};
use crate::work::{add_work, block_work, chain_work, saturate};
use vstd::prelude::*;

verus! {

/// What the network is in contracts: the cache of recent tips, the forks in
/// the order in which their tips were accepted, the heads, and the main
/// chain with its state.
pub struct NetworkView {
    pub recent: RecentCacheView,
    pub forks: Seq<ForkView>,
    pub heads: Seq<HeadView>,
    pub blocks: Seq<(BlockView, u128)>,
    pub blocks_set: Set<Seq<char>>,
    pub state: StateView,
}

/// The chain that a new block is appended to: the chain up to and including
/// its predecessor, with the height and the total work there.
pub struct Base {
    pub height: u64,
    pub total_work: u64,
    pub blocks: Seq<(BlockView, u128)>,
    pub blocks_set: Set<Seq<char>>,
    pub outputs_set: Set<Output>,
}

/// Whether a walk of `blocks` from the first on, which stops right after
/// the first block that carries `hash`, takes `length` blocks. Where no
/// block carries the hash, the walk takes them all.
pub open spec fn cut_at(blocks: Seq<(BlockView, u128)>, hash: Seq<char>, length: int) -> bool {
    &&& 0 <= length <= blocks.len()
    &&& forall|i: int| 0 <= i < length - 1 ==> (#[trigger] blocks[i]).0.hash != hash
    &&& length < blocks.len() ==> length >= 1 && blocks[length - 1].0.hash == hash
    &&& length == 0 ==> blocks.len() == 0
}

/// The number of blocks that such a walk takes.
pub open spec fn replay_length(blocks: Seq<(BlockView, u128)>, hash: Seq<char>) -> int {
    choose|length: int| cut_at(blocks, hash, length)
}

/// A walk stops at one place only.
pub proof fn lemma_cut_unique(blocks: Seq<(BlockView, u128)>, hash: Seq<char>, a: int, b: int)
    requires
        cut_at(blocks, hash, a),
        cut_at(blocks, hash, b),
    ensures
        a == b,
{
    if a < b {
        assert(blocks[a - 1].0.hash == hash);
    }
    if b < a {
        assert(blocks[b - 1].0.hash == hash);
    }
}

/// The place where a walk stops is the replay length.
pub proof fn lemma_cut_is(blocks: Seq<(BlockView, u128)>, hash: Seq<char>, length: int)
    requires
        cut_at(blocks, hash, length),
    ensures
        replay_length(blocks, hash) == length,
{
    lemma_cut_unique(blocks, hash, length, replay_length(blocks, hash));
}

impl ForkView {
    /// The total work of the fork is the work of its blocks, kept in 64
    /// bits.
    pub open spec fn work_is_sum(self) -> bool {
        self.total_work == saturate(chain_work(self.chain.blocks))
    }

    /// The fork ends in the block that it is named after, and its height
    /// counts its blocks.
    pub open spec fn wf(self) -> bool {
        &&& self.height >= 1
        &&& self.height == self.chain.blocks.len()
        &&& self.chain.blocks.last().0.hash == self.hash
    }

    /// What the cache keeps of the fork's tip.
    pub open spec fn snapshot(self) -> RecentView {
        RecentView {
            hash: self.hash,
            height: self.height,
            created_at: self.created_at,
            total_work: self.total_work,
            block: self.chain.blocks.last().0,
            outputs_set: self.chain.outputs_set,
            outputs: self.chain.outputs,
        }
    }
}

impl Base {
    /// The unspent outputs of the base are the replay of its blocks.
    pub open spec fn unspent_is_replay(self) -> bool {
        self.outputs_set == replay(self.blocks)
    }

    /// The set of hashes of the base holds the hashes of its blocks.
    pub open spec fn hashes_are_blocks(self) -> bool {
        self.blocks_set == hashes_of(self.blocks)
    }

    /// The total work of the base is the work of its blocks, kept in 64
    /// bits.
    pub open spec fn work_is_sum(self) -> bool {
        self.total_work == saturate(chain_work(self.blocks))
    }

    /// The fork that appending `block` at time `at` to the base makes.
    /// `outputs` is its list of unspent outputs.
    pub open spec fn extended(self, block: BlockView, at: u128, outputs: Seq<Output>) -> ForkView {
        ForkView {
            hash: block.hash,
            height: (self.height + 1) as u64,
            created_at: at,
            total_work: add_work(self.total_work, block_work(block.difficulty)),
            chain: ChainView {
                blocks: self.blocks.push((block, at)),
                blocks_set: self.blocks_set.insert(block.hash),
                outputs,
                outputs_set: apply_block(self.outputs_set, block),
            },
        }
    }
}

/// The base of a chain of its own: no blocks, nothing unspent, no work.
pub open spec fn empty_base() -> Base {
    Base {
        height: 0,
        total_work: 0,
        blocks: Seq::empty(),
        blocks_set: Set::empty(),
        outputs_set: Set::empty(),
    }
}

/// The main chain and the state that a list of forks and a cache settle
/// on: those of the fork that wins.
pub open spec fn settled(forks: Seq<ForkView>, recent: RecentCacheView) -> NetworkView {
    let winner = forks[winner_index(forks)];
    NetworkView {
        recent,
        forks,
        heads: heads_of(forks),
        blocks: winner.chain.blocks,
        blocks_set: winner.chain.blocks_set,
        state: winner.summary(),
    }
}

impl NetworkView {
    /// Whether a chain was initialized.
    pub open spec fn initialized(self) -> bool {
        self.forks.len() > 0
    }

    /// Whether `hash` is the tip of a fork.
    pub open spec fn has_tip(self, hash: Seq<char>) -> bool {
        exists|i: int| 0 <= i < self.forks.len() && (#[trigger] self.forks[i]).hash == hash
    }

    /// The index of the fork whose tip is `hash`.
    pub open spec fn tip_index(self, hash: Seq<char>) -> int {
        choose|i: int| 0 <= i < self.forks.len() && (#[trigger] self.forks[i]).hash == hash
    }

    /// Whether `hash` is the tip of a fork or on the main chain.
    pub open spec fn knows(self, hash: Seq<char>) -> bool {
        self.has_tip(hash) || self.blocks_set.contains(hash)
    }

    /// Whether the cache resolves `hash`: it is no tip, the cache has an
    /// entry for it, and the main chain reaches the height of that entry.
    pub open spec fn uses_cache(self, hash: Seq<char>) -> bool {
        &&& !self.has_tip(hash)
        &&& self.recent.entries.dom().contains(hash)
        &&& self.recent.entries[hash].height <= self.blocks.len()
    }

    /// The base that the predecessor `hash` resolves to, by the first rule
    /// that applies: the fork whose tip it is; the main chain up to the
    /// height of its cache entry, with the unspent outputs of that entry;
    /// the replay of the main chain up to the first block that carries it.
    pub open spec fn base_of(self, hash: Seq<char>) -> Base {
        if self.has_tip(hash) {
            let fork = self.forks[self.tip_index(hash)];
            Base {
                height: fork.height,
                total_work: fork.total_work,
                blocks: fork.chain.blocks,
                blocks_set: fork.chain.blocks_set,
                outputs_set: fork.chain.outputs_set,
            }
        } else if self.uses_cache(hash) {
            let entry = self.recent.entries[hash];
            Base {
                height: entry.height,
                total_work: entry.total_work,
                blocks: self.blocks.take(entry.height as int),
                blocks_set: self.blocks_set.difference(self.recent.later_than(entry.height)),
                outputs_set: entry.outputs_set,
            }
        } else {
            let blocks = self.blocks.take(replay_length(self.blocks, hash));
            Base {
                height: blocks.len() as u64,
                total_work: saturate(chain_work(blocks)),
                blocks,
                blocks_set: hashes_of(blocks),
                outputs_set: replay(blocks),
            }
        }
    }

    /// What a block that initializes a chain is answered.
    pub open spec fn init_verdict(self, block: BlockView) -> Result<(), LedgerError> {
        if self.knows(block.hash) {
            Err(LedgerError::DuplicateHash)
        } else {
            Ok(())
        }
    }

    /// What a submitted block is answered: the first check that fails
    /// decides.
    pub open spec fn submit_verdict(self, block: BlockView) -> Result<(), LedgerError> {
        if !self.initialized() {
            Err(LedgerError::MustInitializeFirst)
        } else if !has_leading_zeroes(block.hash, block.difficulty) {
            Err(LedgerError::LeadingZeroesMismatch)
        } else if !self.knows(block.predecessor) {
            Err(LedgerError::NoPredecessorFound)
        } else if self.knows(block.hash) {
            Err(LedgerError::DuplicateHash)
        } else if self.base_of(block.predecessor).blocks.last().0.difficulty > block.difficulty {
            Err(LedgerError::DifficultyDecreased)
        } else if !transactions_admissible(
            self.base_of(block.predecessor).outputs_set,
            block.transactions,
        ) {
            Err(LedgerError::InvalidTransaction)
        } else {
            Ok(())
        }
    }

    /// The forks after `block` initialized a chain at time `at`.
    pub open spec fn forks_after_init(self, block: BlockView, at: u128, outputs: Seq<Output>) -> Seq<
        ForkView,
    > {
        self.forks.push(empty_base().extended(block, at, outputs))
    }

    /// The forks that stay when a block that builds on `predecessor` is
    /// accepted: all, or all but the fork whose tip the predecessor is.
    pub open spec fn kept_forks(self, predecessor: Seq<char>) -> Seq<ForkView> {
        if self.has_tip(predecessor) {
            self.forks.remove(self.tip_index(predecessor))
        } else {
            self.forks
        }
    }

    /// The forks after `block` was accepted at time `at`: where its
    /// predecessor was a tip, that fork leaves; the fork that ends in the
    /// block joins at the end.
    pub open spec fn forks_after_submit(
        self,
        block: BlockView,
        at: u128,
        outputs: Seq<Output>,
    ) -> Seq<ForkView> {
        self.kept_forks(block.predecessor).push(
            self.base_of(block.predecessor).extended(block, at, outputs),
        )
    }

    /// The cache after the forks became `forks`, the last of which is new:
    /// where the new fork wins, its tip is recorded.
    pub open spec fn recent_after(self, forks: Seq<ForkView>) -> RecentCacheView {
        if winner_index(forks) == forks.len() - 1 {
            self.recent.recorded(forks.last().snapshot())
        } else {
            self.recent
        }
    }

    /// The network after `block` initialized a chain at time `at`.
    pub open spec fn after_init(self, block: BlockView, at: u128, outputs: Seq<Output>) -> NetworkView {
        let forks = self.forks_after_init(block, at, outputs);
        settled(forks, self.recent_after(forks))
    }

    /// The network after the submitted `block` was accepted at time `at`.
    pub open spec fn after_submit(
        self,
        block: BlockView,
        at: u128,
        outputs: Seq<Output>,
    ) -> NetworkView {
        let forks = self.forks_after_submit(block, at, outputs);
        settled(forks, self.recent_after(forks))
    }

    /// No two forks share a tip.
    pub open spec fn tips_distinct(self) -> bool {
        forall|i: int, j: int|
            0 <= i < self.forks.len() && 0 <= j < self.forks.len() && i != j ==> (
            #[trigger] self.forks[i]).hash != (#[trigger] self.forks[j]).hash
    }

    /// What holds of the network at all times: the cache is within its
    /// limit and its entries lie at height 1 or above; no two forks share a
    /// tip, and each fork ends in its tip at its height; the heads are
    /// those of the forks; the main chain and the state are those of the
    /// fork that wins, or empty before any chain was initialized.
    pub open spec fn wf(self) -> bool {
        &&& self.recent.wf()
        &&& forall|h: Seq<char>| #[trigger]
            self.recent.entries.dom().contains(h) ==> self.recent.entries[h].height >= 1
        &&& self.tips_distinct()
        &&& forall|i: int| 0 <= i < self.forks.len() ==> (#[trigger] self.forks[i]).wf()
        &&& self.heads == heads_of(self.forks)
        &&& if self.initialized() {
            self == settled(self.forks, self.recent)
        } else {
            &&& self.blocks == Seq::<(BlockView, u128)>::empty()
            &&& self.blocks_set == Set::<Seq<char>>::empty()
            &&& self.state == empty_state()
        }
    }

    /// The unspent outputs of every fork are the replay of its blocks.
    pub open spec fn forks_unspent_is_replay(self) -> bool {
        forall|i: int|
            0 <= i < self.forks.len() ==> (#[trigger] self.forks[i]).chain.unspent_is_replay()
    }

    /// The set of hashes of every fork holds the hashes of its blocks.
    pub open spec fn forks_hashes_are_blocks(self) -> bool {
        forall|i: int|
            0 <= i < self.forks.len() ==> (#[trigger] self.forks[i]).chain.hashes_are_blocks()
    }

    /// The total work of every fork is the work of its blocks, kept in 64
    /// bits.
    pub open spec fn forks_work_is_sum(self) -> bool {
        forall|i: int| 0 <= i < self.forks.len() ==> (#[trigger] self.forks[i]).work_is_sum()
    }
}

/// The fork whose tip is `hash` is the one at `index`.
pub proof fn lemma_tip_is(net: NetworkView, hash: Seq<char>, index: int)
    requires
        net.tips_distinct(),
        0 <= index < net.forks.len(),
        net.forks[index].hash == hash,
    ensures
        net.has_tip(hash),
        net.tip_index(hash) == index,
{
}

/// The base that a known predecessor resolves to is not empty, and its
/// height counts its blocks.
pub proof fn lemma_base_shape(net: NetworkView, hash: Seq<char>)
    requires
        net.wf(),
        net.initialized(),
    ensures
        net.base_of(hash).height == net.base_of(hash).blocks.len(),
        net.base_of(hash).blocks.len() >= 1,
{
    lemma_winner_exists(net.forks);
    let winner = net.forks[winner_index(net.forks)];
    assert(winner.wf());
    assert(net.blocks.len() >= 1);
    if net.has_tip(hash) {
        assert(net.forks[net.tip_index(hash)].wf());
    } else if net.uses_cache(hash) {
    } else {
        lemma_cut_exists(net.blocks, hash);
    }
}

/// Every walk stops somewhere.
pub proof fn lemma_cut_exists(blocks: Seq<(BlockView, u128)>, hash: Seq<char>)
    ensures
        cut_at(blocks, hash, replay_length(blocks, hash)),
    decreases blocks.len(),
{
    if blocks.len() == 0 {
        assert(cut_at(blocks, hash, 0));
    } else {
        let front = blocks.drop_last();
        lemma_cut_exists(front, hash);
        let k = replay_length(front, hash);
        if k < front.len() {
            assert forall|i: int| 0 <= i < k - 1 implies (#[trigger] blocks[i]).0.hash != hash by {
                assert(front[i].0.hash != hash);
            }
            assert(blocks[k - 1] == front[k - 1]);
            assert(cut_at(blocks, hash, k));
        } else if front.len() > 0 && front[k - 1].0.hash == hash {
            assert forall|i: int| 0 <= i < k - 1 implies (#[trigger] blocks[i]).0.hash != hash by {
                assert(front[i].0.hash != hash);
            }
            assert(blocks[k - 1] == front[k - 1]);
            assert(cut_at(blocks, hash, k));
        } else {
            assert forall|i: int| 0 <= i < blocks.len() - 1 implies (#[trigger] blocks[i]).0.hash
                != hash by {
                if i < k - 1 {
                    assert(front[i].0.hash != hash);
                } else {
                    assert(front[i] == blocks[i]);
                }
            }
            assert(cut_at(blocks, hash, blocks.len() as int));
        }
    }
}

} // verus!
