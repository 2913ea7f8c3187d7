//! What holds of the network whatever blocks arrive, and what holds as
//! long as the cache of recent tips agrees with the main chain.

use crate::block::BlockView;
use crate::fork_choice::{
    is_winner, lemma_winner_exists, lemma_winner_is_best, winner_index, ForkView,
};
use crate::ledger::{empty_base, lemma_base_shape, settled, NetworkView};
use crate::recent::{lemma_recorded_indexed, lemma_recorded_wf};
use crate::transaction::Output;
use crate::utxo::{hashes_of, lemma_hashes_of_push, lemma_replay_push};
use crate::work::lemma_chain_work_push;
use vstd::prelude::*;

verus! {

/// Settling a list of well-formed forks with distinct tips, the last of
/// which is new, gives a well-formed network.
proof fn lemma_settled_wf(net: NetworkView, forks: Seq<ForkView>)
    requires
        net.recent.wf(),
        forall|h: Seq<char>| #[trigger]
            net.recent.entries.dom().contains(h) ==> net.recent.entries[h].height >= 1,
        forks.len() > 0,
        forall|i: int, j: int|
            0 <= i < forks.len() && 0 <= j < forks.len() && i != j ==> (#[trigger] forks[i]).hash
                != (#[trigger] forks[j]).hash,
        forall|i: int| 0 <= i < forks.len() ==> (#[trigger] forks[i]).wf(),
    ensures
        settled(forks, net.recent_after(forks)).wf(),
{
    let after = settled(forks, net.recent_after(forks));
    lemma_recorded_wf(net.recent, forks.last().snapshot());
    assert(forks.last().wf());
    assert(after.tips_distinct());
}

/// A network that was well-formed before a block initialized a chain is
/// well-formed after: the heads stay those of the forks, the state stays
/// the summary of the fork that wins, and the cache stays within its limit.
pub proof fn lemma_after_init_wf(net: NetworkView, block: BlockView, at: u128, outputs: Seq<Output>)
    requires
        net.wf(),
        net.init_verdict(block) is Ok,
    ensures
        net.after_init(block, at, outputs).wf(),
{
    let forks = net.forks_after_init(block, at, outputs);
    let fork = empty_base().extended(block, at, outputs);
    assert(fork.chain.blocks.last() == (block, at));
    assert(fork.wf());
    assert forall|i: int| 0 <= i < forks.len() implies (#[trigger] forks[i]).wf() by {
        if i < net.forks.len() {
            assert(forks[i] == net.forks[i]);
        }
    }
    assert forall|i: int, j: int|
        0 <= i < forks.len() && 0 <= j < forks.len() && i != j implies (#[trigger] forks[i]).hash
        != (#[trigger] forks[j]).hash by {
        if i < net.forks.len() {
            assert(forks[i] == net.forks[i]);
        }
        if j < net.forks.len() {
            assert(forks[j] == net.forks[j]);
        }
    }
    lemma_settled_wf(net, forks);
}

/// A network that was well-formed before a submitted block was accepted is
/// well-formed after.
pub proof fn lemma_after_submit_wf(
    net: NetworkView,
    block: BlockView,
    at: u128,
    outputs: Seq<Output>,
)
    requires
        net.wf(),
        net.submit_verdict(block) is Ok,
        net.base_of(block.predecessor).height < u64::MAX,
    ensures
        net.after_submit(block, at, outputs).wf(),
{
    let base = net.base_of(block.predecessor);
    let kept = net.kept_forks(block.predecessor);
    let fork = base.extended(block, at, outputs);
    let forks = net.forks_after_submit(block, at, outputs);
    assert(forks == kept.push(fork));
    lemma_base_shape(net, block.predecessor);
    assert(fork.chain.blocks.last() == (block, at));
    assert(fork.wf());
    assert forall|i: int| 0 <= i < kept.len() implies (#[trigger] kept[i]).wf() && net.has_tip(
        kept[i].hash,
    ) by {
        if net.has_tip(block.predecessor) {
            let gone = net.tip_index(block.predecessor);
            let k = if i < gone {
                i
            } else {
                i + 1
            };
            assert(kept[i] == net.forks[k]);
        } else {
            assert(kept[i] == net.forks[i]);
        }
    }
    assert forall|i: int, j: int|
        0 <= i < kept.len() && 0 <= j < kept.len() && i != j implies (#[trigger] kept[i]).hash != (
    #[trigger] kept[j]).hash by {
        if net.has_tip(block.predecessor) {
            let gone = net.tip_index(block.predecessor);
            let ki = if i < gone {
                i
            } else {
                i + 1
            };
            let kj = if j < gone {
                j
            } else {
                j + 1
            };
            assert(kept[i] == net.forks[ki]);
            assert(kept[j] == net.forks[kj]);
        } else {
            assert(kept[i] == net.forks[i]);
            assert(kept[j] == net.forks[j]);
        }
    }
    assert forall|i: int| 0 <= i < forks.len() implies (#[trigger] forks[i]).wf() by {
        if i < kept.len() {
            assert(forks[i] == kept[i]);
        }
    }
    assert forall|i: int, j: int|
        0 <= i < forks.len() && 0 <= j < forks.len() && i != j implies (#[trigger] forks[i]).hash
        != (#[trigger] forks[j]).hash by {
        if i < kept.len() {
            assert(forks[i] == kept[i]);
        }
        if j < kept.len() {
            assert(forks[j] == kept[j]);
        }
    }
    lemma_settled_wf(net, forks);
}

/// The heads and the forks name the same tips, in the same order, and each
/// head carries the height and the total work of its fork.
pub proof fn lemma_heads_mirror_forks(net: NetworkView)
    requires
        net.wf(),
    ensures
        net.heads.len() == net.forks.len(),
        forall|i: int|
            0 <= i < net.forks.len() ==> {
                &&& (#[trigger] net.heads[i]).hash == net.forks[i].hash
                &&& net.heads[i].height == net.forks[i].height
                &&& net.heads[i].total_work == net.forks[i].total_work
            },
        forall|h: Seq<char>|
            net.has_tip(h) <==> exists|i: int|
                0 <= i < net.heads.len() && (#[trigger] net.heads[i]).hash == h,
{
    assert forall|h: Seq<char>| net.has_tip(h) <==> exists|i: int|
        0 <= i < net.heads.len() && (#[trigger] net.heads[i]).hash == h by {
        if net.has_tip(h) {
            let i = net.tip_index(h);
            assert(net.heads[i].hash == h);
        }
        if exists|i: int| 0 <= i < net.heads.len() && (#[trigger] net.heads[i]).hash == h {
            let i = choose|i: int| 0 <= i < net.heads.len() && (#[trigger] net.heads[i]).hash == h;
            assert(net.forks[i].hash == h);
        }
    }
}

/// The state is the summary of the fork that wins: no fork has more total
/// work, and no fork of the same work has an earlier tip.
pub proof fn lemma_state_is_winner(net: NetworkView)
    requires
        net.wf(),
        net.initialized(),
    ensures
        is_winner(net.forks, winner_index(net.forks)),
        net.state == net.forks[winner_index(net.forks)].summary(),
        net.blocks == net.forks[winner_index(net.forks)].chain.blocks,
        net.blocks_set == net.forks[winner_index(net.forks)].chain.blocks_set,
        forall|j: int|
            0 <= j < net.forks.len() ==> (#[trigger] net.forks[j]).total_work
                <= net.state.total_work,
{
    lemma_winner_exists(net.forks);
    assert forall|j: int| 0 <= j < net.forks.len() implies (#[trigger] net.forks[j]).total_work
        <= net.state.total_work by {
        lemma_winner_is_best(net.forks, j);
    }
}

/// The queue of the cache never holds more hashes than the limit.
pub proof fn lemma_queue_within_limit(net: NetworkView)
    requires
        net.wf(),
    ensures
        net.recent.queue.len() <= net.recent.limit,
{
}

/// Any fork of the forks that stay is one of the forks before.
proof fn lemma_kept_fork(net: NetworkView, predecessor: Seq<char>, i: int)
    requires
        0 <= i < net.kept_forks(predecessor).len(),
    ensures
        exists|k: int|
            0 <= k < net.forks.len() && net.kept_forks(predecessor)[i] == #[trigger] net.forks[k],
{
    let kept = net.kept_forks(predecessor);
    if net.has_tip(predecessor) {
        let gone = net.tip_index(predecessor);
        let k = if i < gone {
            i
        } else {
            i + 1
        };
        assert(kept[i] == net.forks[k]);
    } else {
        assert(kept[i] == net.forks[i]);
    }
}

/// The unspent outputs of every fork stay the replay of its blocks when a
/// block initializes a chain.
pub proof fn lemma_after_init_unspent(
    net: NetworkView,
    block: BlockView,
    at: u128,
    outputs: Seq<Output>,
)
    requires
        net.forks_unspent_is_replay(),
    ensures
        net.after_init(block, at, outputs).forks_unspent_is_replay(),
{
    let forks = net.forks_after_init(block, at, outputs);
    lemma_replay_push(empty_base().blocks, block, at);
    assert forall|i: int| 0 <= i < forks.len() implies (
    #[trigger] forks[i]).chain.unspent_is_replay() by {
        if i < net.forks.len() {
            assert(forks[i] == net.forks[i]);
        }
    }
}

/// The set of hashes of every fork stays the hashes of its blocks when a
/// block initializes a chain.
pub proof fn lemma_after_init_hashes(
    net: NetworkView,
    block: BlockView,
    at: u128,
    outputs: Seq<Output>,
)
    requires
        net.forks_hashes_are_blocks(),
    ensures
        net.after_init(block, at, outputs).forks_hashes_are_blocks(),
{
    let forks = net.forks_after_init(block, at, outputs);
    assert(hashes_of(empty_base().blocks) =~= Set::<Seq<char>>::empty());
    lemma_hashes_of_push(empty_base().blocks, block, at);
    assert forall|i: int| 0 <= i < forks.len() implies (
    #[trigger] forks[i]).chain.hashes_are_blocks() by {
        if i < net.forks.len() {
            assert(forks[i] == net.forks[i]);
        }
    }
}

/// The total work of every fork stays the work of its blocks when a block
/// initializes a chain.
pub proof fn lemma_after_init_work(
    net: NetworkView,
    block: BlockView,
    at: u128,
    outputs: Seq<Output>,
)
    requires
        net.forks_work_is_sum(),
    ensures
        net.after_init(block, at, outputs).forks_work_is_sum(),
{
    let forks = net.forks_after_init(block, at, outputs);
    lemma_chain_work_push(empty_base().blocks, block, at);
    assert forall|i: int| 0 <= i < forks.len() implies (#[trigger] forks[i]).work_is_sum() by {
        if i < net.forks.len() {
            assert(forks[i] == net.forks[i]);
        }
    }
}

/// The unspent outputs of every fork stay the replay of its blocks when a
/// submitted block is accepted, as long as a base taken from the cache has
/// the unspent outputs that replaying its blocks leaves. A base taken from
/// a tip or from a replay of the main chain always has.
pub proof fn lemma_after_submit_unspent(
    net: NetworkView,
    block: BlockView,
    at: u128,
    outputs: Seq<Output>,
)
    requires
        net.forks_unspent_is_replay(),
        net.uses_cache(block.predecessor) ==> net.base_of(block.predecessor).unspent_is_replay(),
    ensures
        net.after_submit(block, at, outputs).forks_unspent_is_replay(),
{
    let base = net.base_of(block.predecessor);
    let kept = net.kept_forks(block.predecessor);
    let forks = net.forks_after_submit(block, at, outputs);
    if net.has_tip(block.predecessor) {
        assert(net.forks[net.tip_index(block.predecessor)].chain.unspent_is_replay());
    }
    assert(base.unspent_is_replay());
    lemma_replay_push(base.blocks, block, at);
    assert forall|i: int| 0 <= i < forks.len() implies (
    #[trigger] forks[i]).chain.unspent_is_replay() by {
        if i < kept.len() {
            assert(forks[i] == kept[i]);
            lemma_kept_fork(net, block.predecessor, i);
        }
    }
}

/// The set of hashes of every fork stays the hashes of its blocks when a
/// submitted block is accepted, as long as a base taken from the cache has
/// the hashes of its blocks as its set of hashes. A base taken from a tip
/// or from a replay of the main chain always has.
pub proof fn lemma_after_submit_hashes(
    net: NetworkView,
    block: BlockView,
    at: u128,
    outputs: Seq<Output>,
)
    requires
        net.forks_hashes_are_blocks(),
        net.uses_cache(block.predecessor) ==> net.base_of(block.predecessor).hashes_are_blocks(),
    ensures
        net.after_submit(block, at, outputs).forks_hashes_are_blocks(),
{
    let base = net.base_of(block.predecessor);
    let kept = net.kept_forks(block.predecessor);
    let forks = net.forks_after_submit(block, at, outputs);
    if net.has_tip(block.predecessor) {
        assert(net.forks[net.tip_index(block.predecessor)].chain.hashes_are_blocks());
    }
    assert(base.hashes_are_blocks());
    lemma_hashes_of_push(base.blocks, block, at);
    assert forall|i: int| 0 <= i < forks.len() implies (
    #[trigger] forks[i]).chain.hashes_are_blocks() by {
        if i < kept.len() {
            assert(forks[i] == kept[i]);
            lemma_kept_fork(net, block.predecessor, i);
        }
    }
}

/// The total work of every fork stays the work of its blocks when a
/// submitted block is accepted, as long as a base taken from the cache has
/// the work of its blocks as its total work. A base taken from a tip or
/// from a replay of the main chain always has.
pub proof fn lemma_after_submit_work(
    net: NetworkView,
    block: BlockView,
    at: u128,
    outputs: Seq<Output>,
)
    requires
        net.forks_work_is_sum(),
        net.uses_cache(block.predecessor) ==> net.base_of(block.predecessor).work_is_sum(),
    ensures
        net.after_submit(block, at, outputs).forks_work_is_sum(),
{
    let base = net.base_of(block.predecessor);
    let kept = net.kept_forks(block.predecessor);
    let forks = net.forks_after_submit(block, at, outputs);
    if net.has_tip(block.predecessor) {
        assert(net.forks[net.tip_index(block.predecessor)].work_is_sum());
    }
    assert(base.work_is_sum());
    lemma_chain_work_push(base.blocks, block, at);
    assert forall|i: int| 0 <= i < forks.len() implies (#[trigger] forks[i]).work_is_sum() by {
        if i < kept.len() {
            assert(forks[i] == kept[i]);
            lemma_kept_fork(net, block.predecessor, i);
        }
    }
}

/// The queue and the entries of the cache stay in step when a block
/// initializes a chain, as long as the hash of the block is not waiting in
/// the queue.
pub proof fn lemma_after_init_indexed(
    net: NetworkView,
    block: BlockView,
    at: u128,
    outputs: Seq<Output>,
)
    requires
        net.wf(),
        net.recent.indexed(),
        !net.recent.queue_with_room().contains(block.hash),
    ensures
        net.after_init(block, at, outputs).recent.indexed(),
{
    let forks = net.forks_after_init(block, at, outputs);
    lemma_recorded_indexed(net.recent, forks.last().snapshot());
}

/// The queue and the entries of the cache stay in step when a submitted
/// block is accepted, as long as the hash of the block is not waiting in
/// the queue.
pub proof fn lemma_after_submit_indexed(
    net: NetworkView,
    block: BlockView,
    at: u128,
    outputs: Seq<Output>,
)
    requires
        net.wf(),
        net.recent.indexed(),
        !net.recent.queue_with_room().contains(block.hash),
    ensures
        net.after_submit(block, at, outputs).recent.indexed(),
{
    let forks = net.forks_after_submit(block, at, outputs);
    lemma_recorded_indexed(net.recent, forks.last().snapshot());
}

} // verus!
