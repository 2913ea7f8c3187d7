//! What holds of the network as long as no hash is accepted twice: every
//! fork and every entry of the cache stays what the blocks say.

use crate::block::BlockView;
use crate::fork_choice::{lemma_winner_exists, winner_index, ForkView};
use crate::ledger::{
    empty_base, lemma_base_shape, lemma_cut_exists, replay_length, Base, NetworkView,
};
use crate::recent::{lemma_recorded_indexed, RecentView};
use crate::transaction::Output;
use crate::utxo::{hashes_of, lemma_hashes_of_push, lemma_replay_push, replay};
use crate::work::{chain_work, lemma_chain_work_push, saturate};
use vstd::prelude::*;

verus! {

/// No two blocks of the chain carry the same hash.
pub open spec fn hashes_distinct(blocks: Seq<(BlockView, u128)>) -> bool {
    forall|i: int, j: int|
        0 <= i < blocks.len() && 0 <= j < blocks.len() && i != j ==> (#[trigger] blocks[i]).0.hash
            != (#[trigger] blocks[j]).0.hash
}

/// A chain with its set of hashes is tidy: the unspent outputs and the
/// total work are those of the blocks, the set of hashes holds the hash of
/// every block, and no two blocks carry the same hash.
pub open spec fn tidy(
    blocks: Seq<(BlockView, u128)>,
    blocks_set: Set<Seq<char>>,
    outputs_set: Set<Output>,
    total_work: u64,
) -> bool {
    &&& outputs_set == replay(blocks)
    &&& total_work == saturate(chain_work(blocks))
    &&& hashes_of(blocks).subset_of(blocks_set)
    &&& hashes_distinct(blocks)
}

/// An entry of the cache fits a chain: where the chain's set of hashes
/// holds the hash of the entry, the block at the height of the entry
/// carries that hash, and the entry keeps the unspent outputs and the total
/// work of the chain up to that block.
pub open spec fn fits(
    entry: RecentView,
    blocks: Seq<(BlockView, u128)>,
    blocks_set: Set<Seq<char>>,
) -> bool {
    blocks_set.contains(entry.hash) ==> {
        &&& 1 <= entry.height <= blocks.len()
        &&& blocks[entry.height - 1].0.hash == entry.hash
        &&& entry.outputs_set == replay(blocks.take(entry.height as int))
        &&& entry.total_work == saturate(chain_work(blocks.take(entry.height as int)))
    }
}

impl ForkView {
    /// The fork is tidy.
    pub open spec fn tidy(self) -> bool {
        tidy(self.chain.blocks, self.chain.blocks_set, self.chain.outputs_set, self.total_work)
    }
}

impl Base {
    /// The base is tidy.
    pub open spec fn tidy(self) -> bool {
        tidy(self.blocks, self.blocks_set, self.outputs_set, self.total_work)
    }
}

impl NetworkView {
    /// Whether some fork holds `hash` in its set of hashes.
    pub open spec fn holds(self, hash: Seq<char>) -> bool {
        exists|i: int|
            0 <= i < self.forks.len() && (#[trigger] self.forks[i]).chain.blocks_set.contains(hash)
    }

    /// The network is coherent: every fork is tidy, the queue of the cache
    /// lists exactly the hashes that have an entry, each once, some fork
    /// holds the hash of every entry, and every entry fits every fork.
    pub open spec fn coherent(self) -> bool {
        &&& forall|i: int| 0 <= i < self.forks.len() ==> (#[trigger] self.forks[i]).tidy()
        &&& self.recent.indexed()
        &&& forall|h: Seq<char>| #[trigger] self.recent.entries.dom().contains(h) ==> self.holds(h)
        &&& forall|h: Seq<char>, i: int|
            #[trigger] self.recent.entries.dom().contains(h) && 0 <= i < self.forks.len() ==> fits(
                self.recent.entries[h],
                (#[trigger] self.forks[i]).chain.blocks,
                self.forks[i].chain.blocks_set,
            )
    }

    /// What the base of `hash` owes to a coherent network: it is tidy, some
    /// fork holds each of its hashes, and every entry of the cache fits it.
    pub open spec fn base_coherent(self, hash: Seq<char>) -> bool {
        let base = self.base_of(hash);
        &&& base.tidy()
        &&& forall|h: Seq<char>| #[trigger] base.blocks_set.contains(h) ==> self.holds(h)
        &&& forall|h: Seq<char>| #[trigger]
            self.recent.entries.dom().contains(h) ==> fits(
                self.recent.entries[h],
                base.blocks,
                base.blocks_set,
            )
    }
}

/// In a coherent network the unspent outputs of every fork are the replay
/// of its blocks, the total work of every fork is the work of its blocks,
/// and every hash in the queue of the cache has an entry.
pub proof fn lemma_coherent_gives(net: NetworkView)
    requires
        net.coherent(),
    ensures
        net.forks_unspent_is_replay(),
        net.forks_work_is_sum(),
        forall|i: int|
            0 <= i < net.recent.queue.len() ==> net.recent.entries.dom().contains(
                #[trigger] net.recent.queue[i],
            ),
{
    assert forall|i: int| 0 <= i < net.forks.len() implies (
    #[trigger] net.forks[i]).chain.unspent_is_replay() by {
        assert(net.forks[i].tidy());
    }
    assert forall|i: int| 0 <= i < net.forks.len() implies (#[trigger] net.forks[i]).work_is_sum() by {
        assert(net.forks[i].tidy());
    }
    assert forall|i: int| 0 <= i < net.recent.queue.len() implies net.recent.entries.dom().contains(
        #[trigger] net.recent.queue[i],
    ) by {
        assert(net.recent.queue.to_set().contains(net.recent.queue[i]));
    }
}

/// A network without forks and with an empty cache is coherent.
pub proof fn lemma_empty_coherent(net: NetworkView)
    requires
        !net.initialized(),
        net.recent.entries == Map::<Seq<char>, RecentView>::empty(),
        net.recent.queue == Seq::<Seq<char>>::empty(),
    ensures
        net.coherent(),
{
    assert(net.recent.queue.to_set() =~= net.recent.entries.dom());
}

/// The prefix of a chain with distinct hashes has distinct hashes, and its
/// hashes are hashes of the chain.
proof fn lemma_prefix(blocks: Seq<(BlockView, u128)>, length: int)
    requires
        0 <= length <= blocks.len(),
        hashes_distinct(blocks),
    ensures
        hashes_distinct(blocks.take(length)),
        hashes_of(blocks.take(length)).subset_of(hashes_of(blocks)),
{
    let prefix = blocks.take(length);
    assert forall|i: int, j: int|
        0 <= i < prefix.len() && 0 <= j < prefix.len() && i != j implies (
    #[trigger] prefix[i]).0.hash != (#[trigger] prefix[j]).0.hash by {
        assert(prefix[i] == blocks[i]);
        assert(prefix[j] == blocks[j]);
    }
    assert forall|h: Seq<char>| hashes_of(prefix).contains(h) implies hashes_of(blocks).contains(
        h,
    ) by {
        let i = choose|i: int| 0 <= i < prefix.len() && #[trigger] prefix[i].0.hash == h;
        assert(blocks[i].0.hash == h);
    }
}

/// Where an entry fits a chain with distinct hashes whose set of hashes
/// holds the hash of every block, and the block at `index` carries the hash
/// of the entry, the entry lies at that block.
proof fn lemma_fits_at(
    entry: RecentView,
    blocks: Seq<(BlockView, u128)>,
    blocks_set: Set<Seq<char>>,
    index: int,
)
    requires
        fits(entry, blocks, blocks_set),
        hashes_distinct(blocks),
        hashes_of(blocks).subset_of(blocks_set),
        0 <= index < blocks.len(),
        blocks[index].0.hash == entry.hash,
    ensures
        entry.height == index + 1,
{
    assert(hashes_of(blocks).contains(entry.hash));
    assert(blocks_set.contains(entry.hash));
    if entry.height - 1 != index {
        assert(blocks[entry.height - 1].0.hash != blocks[index].0.hash);
    }
}

/// An entry that fits a chain at a height within a prefix fits the prefix,
/// whatever set of hashes the prefix has.
proof fn lemma_fits_prefix(
    entry: RecentView,
    blocks: Seq<(BlockView, u128)>,
    blocks_set: Set<Seq<char>>,
    length: int,
    prefix_set: Set<Seq<char>>,
)
    requires
        fits(entry, blocks, blocks_set),
        blocks_set.contains(entry.hash),
        entry.height <= length <= blocks.len(),
    ensures
        fits(entry, blocks.take(length), prefix_set),
{
    let prefix = blocks.take(length);
    assert(prefix[entry.height - 1] == blocks[entry.height - 1]);
    assert(prefix.take(entry.height as int) =~= blocks.take(entry.height as int));
}

/// In a coherent network, the base that a known predecessor resolves to is
/// tidy, some fork holds each of its hashes, and every entry of the cache
/// fits it.
pub proof fn lemma_base_coherent(net: NetworkView, hash: Seq<char>)
    requires
        net.wf(),
        net.initialized(),
        net.coherent(),
        net.knows(hash),
    ensures
        net.base_coherent(hash),
{
    let base = net.base_of(hash);
    lemma_winner_exists(net.forks);
    let w = winner_index(net.forks);
    let main = net.forks[w];
    assert(main.tidy());
    assert(net.blocks == main.chain.blocks);
    assert(net.blocks_set == main.chain.blocks_set);
    if net.has_tip(hash) {
        let t = net.tip_index(hash);
        let fork = net.forks[t];
        assert(fork.tidy());
        assert forall|h: Seq<char>| #[trigger] base.blocks_set.contains(h) implies net.holds(h) by {
            assert(net.forks[t].chain.blocks_set.contains(h));
        }
        assert forall|h: Seq<char>| #[trigger] net.recent.entries.dom().contains(h) implies fits(
            net.recent.entries[h],
            base.blocks,
            base.blocks_set,
        ) by {
            assert(fits(net.recent.entries[h], net.forks[t].chain.blocks, net.forks[t].chain.blocks_set));
        }
    } else if net.uses_cache(hash) {
        let found = net.recent.entries[hash];
        let height = found.height as int;
        assert(found.hash == hash);
        assert(fits(found, net.forks[w].chain.blocks, net.forks[w].chain.blocks_set));
        assert(main.chain.blocks_set.contains(hash));
        lemma_prefix(main.chain.blocks, height);
        assert(base.blocks == main.chain.blocks.take(height));
        assert forall|h: Seq<char>| hashes_of(base.blocks).contains(h) implies base.blocks_set.contains(
            h,
        ) by {
            let i = choose|i: int| 0 <= i < base.blocks.len() && #[trigger] base.blocks[i].0.hash == h;
            assert(main.chain.blocks[i].0.hash == h);
            assert(hashes_of(main.chain.blocks).contains(h));
            assert(main.chain.blocks_set.contains(h));
            if net.recent.later_than(found.height).contains(h) {
                let other = net.recent.entries[h];
                assert(other.hash == h);
                assert(fits(other, net.forks[w].chain.blocks, net.forks[w].chain.blocks_set));
                lemma_fits_at(other, main.chain.blocks, main.chain.blocks_set, i);
            }
        }
        assert forall|h: Seq<char>| #[trigger] base.blocks_set.contains(h) implies net.holds(h) by {
            assert(net.forks[w].chain.blocks_set.contains(h));
        }
        assert forall|h: Seq<char>| #[trigger] net.recent.entries.dom().contains(h) implies fits(
            net.recent.entries[h],
            base.blocks,
            base.blocks_set,
        ) by {
            let entry = net.recent.entries[h];
            assert(entry.hash == h);
            if base.blocks_set.contains(h) {
                assert(main.chain.blocks_set.contains(h));
                assert(fits(entry, net.forks[w].chain.blocks, net.forks[w].chain.blocks_set));
                assert(net.recent.queue.to_set().contains(h));
                assert(net.recent.queue.contains(h));
                assert(!net.recent.later_than(found.height).contains(h));
                assert(entry.height <= found.height);
                lemma_fits_prefix(
                    entry,
                    main.chain.blocks,
                    main.chain.blocks_set,
                    height,
                    base.blocks_set,
                );
            }
        }
    } else {
        lemma_cut_exists(main.chain.blocks, hash);
        let length = replay_length(main.chain.blocks, hash);
        lemma_prefix(main.chain.blocks, length);
        assert(base.blocks == main.chain.blocks.take(length));
        assert forall|h: Seq<char>| #[trigger] base.blocks_set.contains(h) implies net.holds(h) by {
            assert(hashes_of(main.chain.blocks).contains(h));
            assert(net.forks[w].chain.blocks_set.contains(h));
        }
        assert forall|h: Seq<char>| #[trigger] net.recent.entries.dom().contains(h) implies fits(
            net.recent.entries[h],
            base.blocks,
            base.blocks_set,
        ) by {
            let entry = net.recent.entries[h];
            assert(entry.hash == h);
            if base.blocks_set.contains(h) {
                let i = choose|i: int|
                    0 <= i < base.blocks.len() && #[trigger] base.blocks[i].0.hash == h;
                assert(main.chain.blocks[i].0.hash == h);
                assert(hashes_of(main.chain.blocks).contains(h));
                assert(main.chain.blocks_set.contains(h));
                assert(fits(entry, net.forks[w].chain.blocks, net.forks[w].chain.blocks_set));
                lemma_fits_at(entry, main.chain.blocks, main.chain.blocks_set, i);
                lemma_fits_prefix(
                    entry,
                    main.chain.blocks,
                    main.chain.blocks_set,
                    length,
                    base.blocks_set,
                );
            }
        }
    }
}

/// In a coherent network whose main chain has the hashes of its blocks as
/// its set of hashes, a base taken from the cache has the hashes of its
/// blocks as its set of hashes, as long as the queue of the cache lists the
/// hash of every block of the main chain above the predecessor.
pub proof fn lemma_cache_base_hashes(net: NetworkView, hash: Seq<char>)
    requires
        net.wf(),
        net.initialized(),
        net.coherent(),
        net.uses_cache(hash),
        net.blocks_set.contains(hash),
        net.blocks_set == hashes_of(net.blocks),
        forall|i: int|
            net.recent.entries[hash].height <= i < net.blocks.len() ==> net.recent.queue.contains(
                (#[trigger] net.blocks[i]).0.hash,
            ),
    ensures
        net.base_of(hash).hashes_are_blocks(),
{
    let base = net.base_of(hash);
    lemma_winner_exists(net.forks);
    let w = winner_index(net.forks);
    let main = net.forks[w];
    let found = net.recent.entries[hash];
    assert(main.tidy());
    assert(net.knows(hash));
    lemma_base_coherent(net, hash);
    assert forall|h: Seq<char>| base.blocks_set.contains(h) implies hashes_of(base.blocks).contains(
        h,
    ) by {
        let i = choose|i: int| 0 <= i < net.blocks.len() && #[trigger] net.blocks[i].0.hash == h;
        if i >= found.height {
            assert(net.recent.queue.contains(net.blocks[i].0.hash));
            assert(net.recent.queue.to_set().contains(h));
            let entry = net.recent.entries[h];
            assert(entry.hash == h);
            assert(fits(entry, net.forks[w].chain.blocks, net.forks[w].chain.blocks_set));
            lemma_fits_at(entry, main.chain.blocks, main.chain.blocks_set, i);
            assert(net.recent.later_than(found.height).contains(h));
        } else {
            assert(base.blocks[i].0.hash == h);
        }
    }
    assert(base.blocks_set =~= hashes_of(base.blocks));
}

/// An entry that fits a chain fits the chain with one more block whose
/// hash is not that of the entry.
proof fn lemma_fits_longer(
    entry: RecentView,
    blocks: Seq<(BlockView, u128)>,
    blocks_set: Set<Seq<char>>,
    block: BlockView,
    at: u128,
)
    requires
        fits(entry, blocks, blocks_set),
        entry.hash != block.hash,
    ensures
        fits(entry, blocks.push((block, at)), blocks_set.insert(block.hash)),
{
    let longer = blocks.push((block, at));
    if blocks_set.contains(entry.hash) {
        assert(longer[entry.height - 1] == blocks[entry.height - 1]);
        assert(longer.take(entry.height as int) =~= blocks.take(entry.height as int));
    }
}

/// The fork that a fresh block makes of a tidy base is tidy.
proof fn lemma_extended_tidy(
    net: NetworkView,
    base: Base,
    block: BlockView,
    at: u128,
    outputs: Seq<Output>,
)
    requires
        base.tidy(),
        forall|h: Seq<char>| #[trigger] base.blocks_set.contains(h) ==> net.holds(h),
        !net.holds(block.hash),
    ensures
        base.extended(block, at, outputs).tidy(),
{
    let made = base.extended(block, at, outputs);
    let longer = base.blocks.push((block, at));
    lemma_replay_push(base.blocks, block, at);
    lemma_chain_work_push(base.blocks, block, at);
    lemma_hashes_of_push(base.blocks, block, at);
    assert forall|i: int| 0 <= i < base.blocks.len() implies (#[trigger] base.blocks[i]).0.hash
        != block.hash by {
        assert(hashes_of(base.blocks).contains(base.blocks[i].0.hash));
        assert(base.blocks_set.contains(base.blocks[i].0.hash));
    }
    assert forall|i: int, j: int|
        0 <= i < longer.len() && 0 <= j < longer.len() && i != j implies (
    #[trigger] longer[i]).0.hash != (#[trigger] longer[j]).0.hash by {
        if i < base.blocks.len() {
            assert(longer[i] == base.blocks[i]);
        }
        if j < base.blocks.len() {
            assert(longer[j] == base.blocks[j]);
        }
    }
}

/// A coherent network stays coherent when a fork that a fresh block makes
/// of a base joins the forks that stay.
proof fn lemma_accept_coherent(
    net: NetworkView,
    kept: Seq<ForkView>,
    base: Base,
    block: BlockView,
    at: u128,
    outputs: Seq<Output>,
)
    requires
        net.recent.wf(),
        net.coherent(),
        !net.holds(block.hash),
        base.tidy(),
        base.height == base.blocks.len(),
        base.height < u64::MAX,
        forall|h: Seq<char>| #[trigger] base.blocks_set.contains(h) ==> net.holds(h),
        forall|h: Seq<char>| #[trigger]
            net.recent.entries.dom().contains(h) ==> fits(
                net.recent.entries[h],
                base.blocks,
                base.blocks_set,
            ),
        forall|i: int| 0 <= i < kept.len() ==> net.forks.contains(#[trigger] kept[i]),
        forall|k: int|
            0 <= k < net.forks.len() ==> kept.contains(#[trigger] net.forks[k])
                || net.forks[k].chain.blocks_set == base.blocks_set,
    ensures
        ({
            let forks = kept.push(base.extended(block, at, outputs));
            crate::ledger::settled(forks, net.recent_after(forks)).coherent()
        }),
{
    let made = base.extended(block, at, outputs);
    let forks = kept.push(made);
    let recent = net.recent_after(forks);
    let after = crate::ledger::settled(forks, recent);
    let last = kept.len() as int;
    assert(forks[last] == made);
    lemma_extended_tidy(net, base, block, at, outputs);
    assert forall|i: int| 0 <= i < forks.len() implies (#[trigger] forks[i]).tidy() by {
        if i < last {
            assert(forks[i] == kept[i]);
            let k = choose|k: int| 0 <= k < net.forks.len() && net.forks[k] == kept[i];
            assert(net.forks[k].tidy());
        }
    }
    assert forall|i: int| 0 <= i < last implies !(#[trigger] forks[i]).chain.blocks_set.contains(
        block.hash,
    ) by {
        assert(forks[i] == kept[i]);
        let k = choose|k: int| 0 <= k < net.forks.len() && net.forks[k] == kept[i];
        assert(!net.forks[k].chain.blocks_set.contains(block.hash));
    }
    assert forall|h: Seq<char>| net.holds(h) implies after.holds(h) by {
        let k = choose|k: int|
            0 <= k < net.forks.len() && (#[trigger] net.forks[k]).chain.blocks_set.contains(h);
        if kept.contains(net.forks[k]) {
            let i = choose|i: int| 0 <= i < kept.len() && kept[i] == net.forks[k];
            assert(forks[i] == kept[i]);
            assert(after.forks[i].chain.blocks_set.contains(h));
        } else {
            assert(net.forks[k].chain.blocks_set == base.blocks_set);
            assert(after.forks[last].chain.blocks_set.contains(h));
        }
    }
    assert forall|h: Seq<char>, i: int|
        #[trigger] net.recent.entries.dom().contains(h) && 0 <= i < forks.len() implies fits(
        net.recent.entries[h],
        (#[trigger] forks[i]).chain.blocks,
        forks[i].chain.blocks_set,
    ) by {
        let entry = net.recent.entries[h];
        assert(entry.hash == h);
        assert(net.holds(h));
        if i < last {
            assert(forks[i] == kept[i]);
            let k = choose|k: int| 0 <= k < net.forks.len() && net.forks[k] == kept[i];
            assert(fits(entry, net.forks[k].chain.blocks, net.forks[k].chain.blocks_set));
        } else {
            lemma_fits_longer(entry, base.blocks, base.blocks_set, block, at);
        }
    }
    if winner_index(forks) == forks.len() - 1 {
        let snapshot = made.snapshot();
        assert(snapshot.hash == block.hash);
        assert(!net.recent.queue_with_room().contains(block.hash)) by {
            if net.recent.queue_with_room().contains(block.hash) {
                let room = net.recent.queue_with_room();
                let i = choose|i: int| 0 <= i < room.len() && room[i] == block.hash;
                if net.recent.queue.len() == net.recent.limit {
                    assert(net.recent.queue[i + 1] == block.hash);
                } else {
                    assert(net.recent.queue[i] == block.hash);
                }
                assert(net.recent.queue.to_set().contains(block.hash));
                assert(net.recent.entries.dom().contains(block.hash));
            }
        }
        lemma_recorded_indexed(net.recent, snapshot);
        assert(made.chain.blocks.last() == (block, at));
        assert(made.chain.blocks.take(made.height as int) =~= made.chain.blocks);
        assert(fits(snapshot, made.chain.blocks, made.chain.blocks_set));
        assert forall|h: Seq<char>| #[trigger] recent.entries.dom().contains(h) implies after.holds(
            h,
        ) by {
            if h == block.hash {
                assert(after.forks[last].chain.blocks_set.contains(h));
            } else {
                assert(net.recent.entries.dom().contains(h));
            }
        }
        assert forall|h: Seq<char>, i: int|
            #[trigger] recent.entries.dom().contains(h) && 0 <= i < forks.len() implies fits(
            recent.entries[h],
            (#[trigger] forks[i]).chain.blocks,
            forks[i].chain.blocks_set,
        ) by {
            if h == block.hash {
                assert(recent.entries[h] == snapshot);
            } else {
                assert(net.recent.entries.dom().contains(h));
                assert(recent.entries[h] == net.recent.entries[h]);
            }
        }
    } else {
        assert forall|h: Seq<char>| #[trigger] recent.entries.dom().contains(h) implies after.holds(
            h,
        ) by {
            assert(net.holds(h));
        }
    }
}

/// A coherent network stays coherent when a block initializes a chain, as
/// long as no fork holds the hash of the block.
pub proof fn lemma_after_init_coherent(
    net: NetworkView,
    block: BlockView,
    at: u128,
    outputs: Seq<Output>,
)
    requires
        net.wf(),
        net.coherent(),
        !net.holds(block.hash),
    ensures
        net.after_init(block, at, outputs).coherent(),
{
    assert(hashes_of(empty_base().blocks) =~= Set::<Seq<char>>::empty());
    lemma_accept_coherent(net, net.forks, empty_base(), block, at, outputs);
}

/// A coherent network stays coherent when a submitted block is accepted, as
/// long as no fork holds the hash of the block.
pub proof fn lemma_after_submit_coherent(
    net: NetworkView,
    block: BlockView,
    at: u128,
    outputs: Seq<Output>,
)
    requires
        net.wf(),
        net.coherent(),
        net.submit_verdict(block) is Ok,
        !net.holds(block.hash),
        net.base_of(block.predecessor).height < u64::MAX,
    ensures
        net.after_submit(block, at, outputs).coherent(),
{
    let base = net.base_of(block.predecessor);
    let kept = net.kept_forks(block.predecessor);
    lemma_base_shape(net, block.predecessor);
    lemma_base_coherent(net, block.predecessor);
    assert forall|i: int| 0 <= i < kept.len() implies net.forks.contains(#[trigger] kept[i]) by {
        if net.has_tip(block.predecessor) {
            let gone = net.tip_index(block.predecessor);
            let k = if i < gone {
                i
            } else {
                i + 1
            };
            assert(kept[i] == net.forks[k]);
        } else {
            assert(kept[i] == net.forks[i]);
        }
    }
    assert forall|k: int| 0 <= k < net.forks.len() implies kept.contains(#[trigger] net.forks[k])
        || net.forks[k].chain.blocks_set == base.blocks_set by {
        if net.has_tip(block.predecessor) {
            let gone = net.tip_index(block.predecessor);
            if k < gone {
                assert(kept[k] == net.forks[k]);
            } else if k > gone {
                assert(kept[k - 1] == net.forks[k]);
            }
        } else {
            assert(kept[k] == net.forks[k]);
        }
    }
    lemma_accept_coherent(net, kept, base, block, at, outputs);
}

} // verus!
