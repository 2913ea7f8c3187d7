//! The network: every fork, the heads, the main chain that the fork-choice
//! rule selects, and the cache of its recent tips.

use crate::block::{check_leading_zeroes, Block, BlockView};
use crate::blockchain::{block_views, clone_blocks, clone_prefix, Blockchain};
use crate::clock::now;
use crate::coherence::{
    lemma_after_init_coherent, lemma_after_submit_coherent, lemma_empty_coherent,
};
use crate::error::LedgerError;
use crate::fork_choice::{
    empty_state, heads_of, is_winner, lemma_winner_is, lemma_winner_step, winner_index, ForkView,
    HeadView, StateView,
};
use crate::laws::{lemma_after_init_wf, lemma_after_submit_wf};
use crate::ledger::{
    cut_at, empty_base, lemma_base_shape, lemma_cut_is, lemma_tip_is, settled, NetworkView,
};
use crate::recent::{RecentBlock, RecentCache};
use crate::sets::Hashes;
use crate::transaction::Output;
use crate::work::{chain_work, lemma_chain_work_push, saturate, sum_work, work_of};
use vstd::prelude::*;

verus! {

/// The head of a fork: the height, the total work and the hash of its tip.
#[allow(non_snake_case)]
#[derive(Debug, PartialEq, Eq, Hash)]
pub struct Head {
    pub height: u64,
    pub totalWork: u64,
    pub hash: String,
}

/// The state of the main chain: the height, the total work and the hash of
/// its tip, and the outputs that it leaves unspent.
#[allow(non_snake_case)]
#[derive(Debug, PartialEq, Eq)]
pub struct ChainState {
    pub height: u64,
    pub totalWork: u64,
    pub hash: String,
    pub outputs: Vec<Output>,
}

/// A fork: the hash of its tip, its height, the time at which the tip was
/// accepted, its total work, and its chain.
#[derive(Debug)]
pub struct Fork {
    pub hash: String,
    pub height: u64,
    pub created_at: u128,
    pub total_work: u64,
    pub chain: Blockchain,
}

impl View for Head {
    type V = HeadView;

    open spec fn view(&self) -> HeadView {
        HeadView { height: self.height, total_work: self.totalWork, hash: self.hash@ }
    }
}

impl View for ChainState {
    type V = StateView;

    open spec fn view(&self) -> StateView {
        StateView {
            height: self.height,
            total_work: self.totalWork,
            hash: self.hash@,
            outputs: self.outputs@,
        }
    }
}

impl View for Fork {
    type V = ForkView;

    open spec fn view(&self) -> ForkView {
        ForkView {
            hash: self.hash@,
            height: self.height,
            created_at: self.created_at,
            total_work: self.total_work,
            chain: self.chain@,
        }
    }
}

impl Clone for Head {
    fn clone(&self) -> (copy: Self)
        ensures
            copy@ == self@,
    {
        Head { height: self.height, totalWork: self.totalWork, hash: self.hash.clone() }
    }
}

impl Clone for ChainState {
    fn clone(&self) -> (copy: Self)
        ensures
            copy@ == self@,
    {
        let outputs = self.outputs.clone();
        assert(outputs@ =~= self.outputs@);
        ChainState {
            height: self.height,
            totalWork: self.totalWork,
            hash: self.hash.clone(),
            outputs,
        }
    }
}

impl Fork {
    /// The head that stands for the fork.
    pub fn head(&self) -> (head: Head)
        ensures
            head@ == self@.head(),
    {
        Head { height: self.height, totalWork: self.total_work, hash: self.hash.clone() }
    }

    /// The summary of the fork as the state of the main chain.
    pub fn summary(&self) -> (state: ChainState)
        ensures
            state@ == self@.summary(),
    {
        let outputs = self.chain.outputs.clone();
        assert(outputs@ =~= self.chain.outputs@);
        ChainState {
            height: self.height,
            totalWork: self.total_work,
            hash: self.hash.clone(),
            outputs,
        }
    }
}

/// The views of a list of forks.
pub open spec fn fork_views(forks: Seq<Fork>) -> Seq<ForkView> {
    Seq::new(forks.len(), |i: int| forks[i]@)
}

/// The views of a list of heads.
pub open spec fn head_views(heads: Seq<Head>) -> Seq<HeadView> {
    Seq::new(heads.len(), |i: int| heads[i]@)
}

/// The network. The recent-tip cache holds the limit, the entries and the
/// queue.
#[derive(Debug)]
pub struct Network {
    pub(crate) recent: RecentCache,
    pub(crate) forks: Vec<Fork>,
    pub(crate) heads: Vec<Head>,
    pub(crate) blocks: Vec<(Block, u128)>,
    pub(crate) blocks_set: Hashes,
    pub(crate) state: ChainState,
}

impl View for Network {
    type V = NetworkView;

    open(crate) spec fn view(&self) -> NetworkView {
        NetworkView {
            recent: self.recent@,
            forks: fork_views(self.forks@),
            heads: head_views(self.heads@),
            blocks: block_views(self.blocks@),
            blocks_set: self.blocks_set@,
            state: self.state@,
        }
    }
}

impl Network {
    /// The network is well-formed as a value and in what it holds: the
    /// rules of `NetworkView::wf` hold of it.
    pub open(crate) spec fn wf(&self) -> bool {
        &&& self@.wf()
        &&& self.recent.wf()
        &&& self.blocks_set.wf()
        &&& forall|i: int| 0 <= i < self.forks@.len() ==> (#[trigger] self.forks@[i]).chain.wf()
    }

    /// A well-formed network obeys the rules of `NetworkView::wf`.
    pub proof fn lemma_view_wf(&self)
        requires
            self.wf(),
        ensures
            self@.wf(),
    {
    }

    /// An empty network whose cache holds up to `recent_count_limit` recent
    /// tips of the main chain.
    pub fn new(recent_count_limit: usize) -> (network: Self)
        requires
            recent_count_limit >= 1,
        ensures
            network.wf(),
            !network@.initialized(),
            network@.recent.limit == recent_count_limit,
            network@.recent.entries == Map::<Seq<char>, crate::recent::RecentView>::empty(),
            network@.recent.queue == Seq::<Seq<char>>::empty(),
            network@.state == empty_state(),
            network@.coherent(),
    {
        let network = Network {
            recent: RecentCache::new(recent_count_limit),
            forks: Vec::new(),
            heads: Vec::new(),
            blocks: Vec::new(),
            blocks_set: Hashes::new(),
            state: ChainState { height: 0, totalWork: 0, hash: String::new(), outputs: Vec::new() },
        };
        proof {
            network.recent.lemma_view_wf();
            assert(network@.heads =~= heads_of(network@.forks));
            assert(network@.blocks =~= Seq::<(BlockView, u128)>::empty());
            lemma_empty_coherent(network@);
        }
        network
    }

    /// Where the fork whose tip is `hash` stands in the list of forks.
    fn find_tip(&self, hash: &String) -> (found: Option<usize>)
        ensures
            match found {
                Some(i) => i < self.forks@.len() && self@.forks[i as int].hash == hash@,
                None => !self@.has_tip(hash@),
            },
    {
        let mut i: usize = 0;
        while i < self.forks.len()
            invariant
                i <= self.forks.len(),
                forall|j: int| 0 <= j < i ==> (#[trigger] self@.forks[j]).hash != hash@,
            decreases self.forks.len() - i,
        {
            if self.forks[i].hash == *hash {
                return Some(i);
            }
            i = i + 1;
        }
        None
    }

    /// The index of the fork that wins.
    fn winner(&self) -> (best: usize)
        requires
            self.forks@.len() > 0,
        ensures
            is_winner(self@.forks, best as int),
            winner_index(self@.forks) == best,
    {
        let mut best: usize = 0;
        let mut i: usize = 1;
        assert(is_winner(self@.forks.take(1), 0));
        while i < self.forks.len()
            invariant
                1 <= i <= self.forks.len(),
                best < i,
                is_winner(self@.forks.take(i as int), best as int),
            decreases self.forks.len() - i,
        {
            proof {
                lemma_winner_step(self@.forks, i as int, best as int);
            }
            let candidate = &self.forks[i];
            let held = &self.forks[best];
            if candidate.total_work > held.total_work || (candidate.total_work == held.total_work
                && candidate.created_at < held.created_at) {
                best = i;
            }
            i = i + 1;
        }
        proof {
            assert(self@.forks.take(i as int) =~= self@.forks);
            lemma_winner_is(self@.forks, best as int);
        }
        best
    }

    /// The blocks, the hashes and the state of the main chain: those of the
    /// fork that wins, or nothing before any chain was initialized.
    pub fn get_main_chain(&self) -> (main: (Vec<(Block, u128)>, Hashes, ChainState))
        ensures
            self@.initialized() ==> {
                let winner = self@.forks[winner_index(self@.forks)];
                &&& is_winner(self@.forks, winner_index(self@.forks))
                &&& block_views(main.0@) == winner.chain.blocks
                &&& main.1@ == winner.chain.blocks_set
                &&& main.2@ == winner.summary()
            },
            !self@.initialized() ==> {
                &&& block_views(main.0@) == Seq::<(BlockView, u128)>::empty()
                &&& main.1@ == Set::<Seq<char>>::empty()
                &&& main.2@ == empty_state()
            },
            self.wf() ==> main.1.wf(),
    {
        if self.forks.len() == 0 {
            let blocks: Vec<(Block, u128)> = Vec::new();
            assert(block_views(blocks@) =~= Seq::<(BlockView, u128)>::empty());
            return (
                blocks,
                Hashes::new(),
                ChainState { height: 0, totalWork: 0, hash: String::new(), outputs: Vec::new() },
            );
        }
        let best = self.winner();
        let fork = &self.forks[best];
        (clone_blocks(&fork.chain.blocks), fork.chain.blocks_set.clone(), fork.summary())
    }

    /// Replays the main chain from its first block up to and including the
    /// first block that carries `hash` (all of it where none does), and
    /// gives the chain there with its total work.
    pub fn compute_chain_at_block(&self, hash: String) -> (at: (Blockchain, u64))
        ensures
            cut_at(self@.blocks, hash@, at.0@.blocks.len() as int),
            at.0@.blocks == self@.blocks.take(at.0@.blocks.len() as int),
            at.0@.unspent_is_replay(),
            at.0@.hashes_are_blocks(),
            at.0.wf(),
            at.1 == saturate(chain_work(at.0@.blocks)),
    {
        let mut chain = Blockchain::new();
        let mut total_work: u64 = 0;
        let mut i: usize = 0;
        while i < self.blocks.len()
            invariant
                i <= self.blocks.len(),
                chain.wf(),
                chain@.unspent_is_replay(),
                chain@.hashes_are_blocks(),
                chain@.blocks == self@.blocks.take(i as int),
                total_work == saturate(chain_work(chain@.blocks)),
                forall|j: int| 0 <= j < i ==> (#[trigger] self@.blocks[j]).0.hash != hash@,
            decreases self.blocks.len() - i,
        {
            let block = self.blocks[i].0.clone();
            let timestamp = self.blocks[i].1;
            let found = block.hash == hash;
            let work = work_of(block.difficulty);
            proof {
                lemma_chain_work_push(chain@.blocks, block@, timestamp);
                assert(self@.blocks.take(i + 1) =~= self@.blocks.take(i as int).push(
                    (block@, timestamp),
                ));
            }
            total_work = sum_work(total_work, work);
            chain.init(block, timestamp);
            i = i + 1;
            if found {
                assert(cut_at(self@.blocks, hash@, i as int));
                return (chain, total_work);
            }
        }
        assert(cut_at(self@.blocks, hash@, i as int));
        (chain, total_work)
    }

    /// Takes a new fork in: the fork at `replaced` leaves where there is
    /// one, the new fork and its head join at the end, the main chain and
    /// the state become those of the fork that wins, and the cache records
    /// the new tip where the new fork wins.
    fn accept(&mut self, replaced: Option<usize>, fork: Fork, block: Block)
        requires
            old(self).recent.wf(),
            old(self)@.heads == heads_of(old(self)@.forks),
            forall|i: int|
                0 <= i < old(self).forks@.len() ==> (#[trigger] old(self).forks@[i]).chain.wf(),
            fork.chain.wf(),
            fork@.chain.blocks.len() > 0,
            block@ == fork@.chain.blocks.last().0,
            match replaced {
                Some(i) => i < old(self).forks@.len(),
                None => true,
            },
        ensures
            final(self).recent.wf(),
            final(self).blocks_set.wf(),
            forall|i: int|
                0 <= i < final(self).forks@.len() ==> (#[trigger] final(self).forks@[i]).chain.wf(),
            final(self)@.forks == (match replaced {
                Some(i) => old(self)@.forks.remove(i as int),
                None => old(self)@.forks,
            }).push(fork@),
            final(self)@ == settled(final(self)@.forks, old(self)@.recent_after(final(self)@.forks)),
    {
        let ghost before = self.forks@;
        let ghost kept = match replaced {
            Some(i) => old(self)@.forks.remove(i as int),
            None => old(self)@.forks,
        };
        assert(head_views(self.heads@).len() == self.heads@.len());
        assert(heads_of(fork_views(self.forks@)).len() == self.forks@.len());
        assert(self.heads@.len() == self.forks@.len());
        let ghost heads_before = self.heads@;
        match replaced {
            Some(i) => {
                let _ = self.forks.remove(i);
                let _ = self.heads.remove(i);
                assert forall|j: int| 0 <= j < self.forks@.len() implies (
                #[trigger] self.forks@[j]).chain.wf() by {
                    let k = if j < i {
                        j
                    } else {
                        j + 1
                    };
                    assert(self.forks@[j] == before[k]);
                }
                assert(head_views(self.heads@) =~= heads_of(fork_views(self.forks@))) by {
                    assert forall|j: int| 0 <= j < self.heads@.len() implies head_views(
                        self.heads@,
                    )[j] == heads_of(fork_views(self.forks@))[j] by {
                        let k = if j < i {
                            j
                        } else {
                            j + 1
                        };
                        assert(self.heads@[j] == heads_before[k]);
                        assert(self.forks@[j] == before[k]);
                        assert(head_views(heads_before)[k] == heads_of(fork_views(before))[k]);
                        assert(head_views(heads_before)[k] == heads_before[k]@);
                        assert(heads_of(fork_views(before))[k] == before[k]@.head());
                        assert(head_views(self.heads@)[j] == self.heads@[j]@);
                        assert(fork_views(self.forks@)[j] == self.forks@[j]@);
                    }
                }
            },
            None => {},
        }
        assert(fork_views(self.forks@) =~= kept);
        let ghost new_fork = fork@;
        let head = fork.head();
        let entry = RecentBlock {
            hash: fork.hash.clone(),
            height: fork.height,
            created_at: fork.created_at,
            total_work: fork.total_work,
            block,
            outputs_set: fork.chain.outputs_set.clone(),
            outputs: fork.chain.outputs().clone(),
        };
        assert(entry.outputs@ =~= fork.chain.outputs@);
        assert(entry@ == new_fork.snapshot());
        let ghost rest = self.forks@;
        let ghost rest_heads = self.heads@;
        self.forks.push(fork);
        self.heads.push(head);
        proof {
            assert(fork_views(self.forks@) =~= kept.push(new_fork));
            assert forall|j: int| 0 <= j < self.forks@.len() implies (
            #[trigger] self.forks@[j]).chain.wf() by {
                if j < rest.len() {
                    assert(self.forks@[j] == rest[j]);
                }
            }
            assert(head_views(self.heads@) =~= heads_of(fork_views(self.forks@))) by {
                assert forall|j: int| 0 <= j < self.heads@.len() implies head_views(self.heads@)[j]
                    == heads_of(fork_views(self.forks@))[j] by {
                    if j < rest.len() {
                        assert(self.heads@[j] == rest_heads[j]);
                        assert(self.forks@[j] == rest[j]);
                        assert(head_views(rest_heads)[j] == heads_of(fork_views(rest))[j]);
                    }
                }
            }
        }
        let best = self.winner();
        self.blocks = clone_blocks(&self.forks[best].chain.blocks);
        self.blocks_set = self.forks[best].chain.blocks_set.clone();
        self.state = self.forks[best].summary();
        if best == self.forks.len() - 1 {
            self.recent.record(entry);
        }
    }

    /// Initializes a chain with `block`, stamped with `timestamp`. The
    /// block is rejected where its hash is known; else a fork of that one
    /// block joins the forks.
    pub fn init_at(&mut self, block: Block, timestamp: u128) -> (r: Result<(), LedgerError>)
        requires
            old(self).wf(),
        ensures
            final(self).wf(),
            r == old(self)@.init_verdict(block@),
            r is Err ==> *final(self) == *old(self),
            r is Ok ==> final(self)@ == old(self)@.after_init(
                block@,
                timestamp,
                final(self)@.forks.last().chain.outputs,
            ),
            r is Ok && old(self)@.coherent() && !old(self)@.holds(block@.hash)
                ==> final(self)@.coherent(),
    {
        if self.find_tip(&block.hash).is_some() || self.blocks_set.contains(&block.hash) {
            return Err(LedgerError::DuplicateHash);
        }
        let total_work = work_of(block.difficulty);
        let mut chain = Blockchain::new();
        chain.init(block.clone(), timestamp);
        let fork = Fork {
            hash: block.hash.clone(),
            height: 1,
            created_at: timestamp,
            total_work,
            chain,
        };
        proof {
            let outputs = fork@.chain.outputs;
            assert(fork@.chain.blocks =~= empty_base().blocks.push((block@, timestamp)));
            assert(fork@ == empty_base().extended(block@, timestamp, outputs));
            lemma_after_init_wf(old(self)@, block@, timestamp, outputs);
            if old(self)@.coherent() && !old(self)@.holds(block@.hash) {
                lemma_after_init_coherent(old(self)@, block@, timestamp, outputs);
            }
        }
        self.accept(None, fork, block);
        Ok(())
    }

    /// Initializes a chain with `block`, stamped with the current time.
    pub fn init(&mut self, block: Block) -> (r: Result<(), LedgerError>)
        requires
            old(self).wf(),
        ensures
            final(self).wf(),
            r == old(self)@.init_verdict(block@),
            r is Err ==> *final(self) == *old(self),
            r is Ok ==> exists|timestamp: u128|
                final(self)@ == #[trigger] old(self)@.after_init(
                    block@,
                    timestamp,
                    final(self)@.forks.last().chain.outputs,
                ),
            r is Ok && old(self)@.coherent() && !old(self)@.holds(block@.hash)
                ==> final(self)@.coherent(),
    {
        let timestamp = now();
        self.init_at(block, timestamp)
    }

    /// Resolves the predecessor of a new block to the chain that the block
    /// is appended to, with the height and the total work there. `tip` says
    /// where the fork whose tip it is stands, if it is a tip.
    fn resolve(&self, predecessor: &String, tip: Option<usize>) -> (base: (u64, u64, Blockchain))
        requires
            self.wf(),
            self@.initialized(),
            match tip {
                Some(i) => i < self.forks@.len() && self@.forks[i as int].hash == predecessor@,
                None => !self@.has_tip(predecessor@),
            },
        ensures
            base.0 == self@.base_of(predecessor@).height,
            base.1 == self@.base_of(predecessor@).total_work,
            base.2@.blocks == self@.base_of(predecessor@).blocks,
            base.2@.blocks_set == self@.base_of(predecessor@).blocks_set,
            base.2@.outputs_set == self@.base_of(predecessor@).outputs_set,
            base.2.wf(),
    {
        match tip {
            Some(i) => {
                proof {
                    lemma_tip_is(self@, predecessor@, i as int);
                }
                let fork = &self.forks[i];
                return (fork.height, fork.total_work, fork.chain.clone());
            },
            None => {},
        }
        match self.recent.get(predecessor) {
            Some(entry) => {
                if entry.height <= self.blocks.len() as u64 {
                    let later = self.recent.later_than(entry.height);
                    let outputs = entry.outputs.clone();
                    assert(outputs@ =~= entry.outputs@);
                    let chain = Blockchain {
                        blocks: clone_prefix(&self.blocks, entry.height as usize),
                        blocks_set: self.blocks_set.without(&later),
                        outputs,
                        outputs_set: entry.outputs_set.clone(),
                    };
                    return (entry.height, entry.total_work, chain);
                }
            },
            None => {},
        }
        let (chain, total_work) = self.compute_chain_at_block(predecessor.clone());
        proof {
            lemma_cut_is(self@.blocks, predecessor@, chain@.blocks.len() as int);
        }
        let height = chain.blocks.len() as u64;
        (height, total_work, chain)
    }

    /// Submits `block`, stamped with `timestamp`. The checks run in order
    /// and the first that fails rejects the block; an accepted block makes
    /// a fork that ends in it, which replaces the fork of its predecessor
    /// where the predecessor was a tip.
    pub fn submit_at(&mut self, block: Block, timestamp: u128) -> (r: Result<(), LedgerError>)
        requires
            old(self).wf(),
        ensures
            final(self).wf(),
            r == old(self)@.submit_verdict(block@),
            r is Err ==> *final(self) == *old(self),
            r is Ok ==> final(self)@ == old(self)@.after_submit(
                block@,
                timestamp,
                final(self)@.forks.last().chain.outputs,
            ),
            r is Ok && old(self)@.coherent() && !old(self)@.holds(block@.hash)
                ==> final(self)@.coherent(),
    {
        if self.forks.len() == 0 {
            return Err(LedgerError::MustInitializeFirst);
        }
        if !check_leading_zeroes(block.hash.as_str(), block.difficulty) {
            return Err(LedgerError::LeadingZeroesMismatch);
        }
        let tip = self.find_tip(&block.predecessor);
        if tip.is_none() && !self.blocks_set.contains(&block.predecessor) {
            return Err(LedgerError::NoPredecessorFound);
        }
        if self.find_tip(&block.hash).is_some() || self.blocks_set.contains(&block.hash) {
            return Err(LedgerError::DuplicateHash);
        }
        let (height, total_work, mut chain) = self.resolve(&block.predecessor, tip);
        proof {
            lemma_base_shape(self@, block@.predecessor);
        }
        if chain.blocks[chain.blocks.len() - 1].0.difficulty > block.difficulty {
            return Err(LedgerError::DifficultyDecreased);
        }
        let ghost base = self@.base_of(block@.predecessor);
        match chain.submit(block.clone(), timestamp) {
            Err(_) => {
                return Err(LedgerError::InvalidTransaction);
            },
            Ok(_) => {},
        }
        let length = chain.blocks.len();
        let fork = Fork {
            hash: block.hash.clone(),
            height: length as u64,
            created_at: timestamp,
            total_work: sum_work(total_work, work_of(block.difficulty)),
            chain,
        };
        proof {
            let outputs = fork@.chain.outputs;
            let made = base.extended(block@, timestamp, outputs);
            assert(base.height + 1 == length);
            assert(fork@.height == made.height);
            assert(fork@.total_work == made.total_work);
            assert(fork@.chain == made.chain);
            assert(fork@ == made);
            assert(old(self)@.submit_verdict(block@) is Ok);
            assert(base.height < u64::MAX);
            match tip {
                Some(i) => {
                    lemma_tip_is(self@, block@.predecessor, i as int);
                },
                None => {},
            }
            lemma_after_submit_wf(old(self)@, block@, timestamp, outputs);
            if old(self)@.coherent() && !old(self)@.holds(block@.hash) {
                lemma_after_submit_coherent(old(self)@, block@, timestamp, outputs);
            }
        }
        self.accept(tip, fork, block);
        Ok(())
    }

    /// Submits `block`, stamped with the current time.
    pub fn submit(&mut self, block: Block) -> (r: Result<(), LedgerError>)
        requires
            old(self).wf(),
        ensures
            final(self).wf(),
            r == old(self)@.submit_verdict(block@),
            r is Err ==> *final(self) == *old(self),
            r is Ok ==> exists|timestamp: u128|
                final(self)@ == #[trigger] old(self)@.after_submit(
                    block@,
                    timestamp,
                    final(self)@.forks.last().chain.outputs,
                ),
            r is Ok && old(self)@.coherent() && !old(self)@.holds(block@.hash)
                ==> final(self)@.coherent(),
    {
        let timestamp = now();
        self.submit_at(block, timestamp)
    }

    /// The state of the main chain, once a chain was initialized.
    pub fn state(&self) -> (r: Result<ChainState, LedgerError>)
        requires
            self.wf(),
        ensures
            answers_state(self@, r),
    {
        if self.heads.len() == 0 {
            assert(heads_of(self@.forks).len() == self@.forks.len());
            return Err(LedgerError::MustInitializeFirst);
        }
        assert(heads_of(self@.forks).len() == self@.forks.len());
        Ok(self.state.clone())
    }

    /// The heads of all forks, once a chain was initialized.
    pub fn heads(&self) -> (r: Result<Vec<Head>, LedgerError>)
        requires
            self.wf(),
        ensures
            answers_heads(self@, r),
    {
        assert(heads_of(self@.forks).len() == self@.forks.len());
        if self.heads.len() == 0 {
            return Err(LedgerError::MustInitializeFirst);
        }
        let mut heads: Vec<Head> = Vec::new();
        let mut i: usize = 0;
        while i < self.heads.len()
            invariant
                i <= self.heads.len(),
                heads@.len() == i,
                forall|j: int| 0 <= j < i ==> heads@[j]@ == self.heads@[j]@,
            decreases self.heads.len() - i,
        {
            heads.push(self.heads[i].clone());
            i = i + 1;
        }
        assert(head_views(heads@) =~= self@.heads);
        Ok(heads)
    }

    /// Everything that the network holds, for inspection: the state and the
    /// heads as the queries give them, the queue and the keys of the cache,
    /// the tips of the forks, and the hashes of the main chain as a list
    /// and as a set.
    pub fn print_details(&self) -> (details: Details)
        requires
            self.wf(),
        ensures
            describes(self@, details),
    {
        let recent_blocks_queue = self.recent.queue();
        assert(texts(recent_blocks_queue@) =~= self@.recent.queue);
        let recent_blocks = self.recent.keys();
        proof {
            let listed = texts(recent_blocks@);
            assert forall|h: Seq<char>| listed.to_set().contains(h)
                <==> self@.recent.entries.dom().contains(h) by {
                if listed.contains(h) {
                    let i = choose|i: int| 0 <= i < listed.len() && listed[i] == h;
                    assert(recent_blocks@[i]@ == h);
                }
                if self@.recent.entries.dom().contains(h) {
                    let i = choose|i: int|
                        0 <= i < recent_blocks@.len() && #[trigger] recent_blocks@[i]@ == h;
                    assert(listed[i] == h);
                }
            }
            assert(listed.to_set() =~= self@.recent.entries.dom());
        }
        let mut forks: Vec<String> = Vec::new();
        let mut i: usize = 0;
        while i < self.forks.len()
            invariant
                i <= self.forks.len(),
                forks@.len() == i,
                forall|j: int| 0 <= j < i ==> forks@[j]@ == self@.forks[j].hash,
            decreases self.forks.len() - i,
        {
            forks.push(self.forks[i].hash.clone());
            i = i + 1;
        }
        assert(texts(forks@) =~= Seq::new(self@.forks.len(), |i: int| self@.forks[i].hash));
        let mut blocks: Vec<String> = Vec::new();
        let mut k: usize = 0;
        while k < self.blocks.len()
            invariant
                k <= self.blocks.len(),
                blocks@.len() == k,
                forall|j: int| 0 <= j < k ==> blocks@[j]@ == self@.blocks[j].0.hash,
            decreases self.blocks.len() - k,
        {
            blocks.push(self.blocks[k].0.hash.clone());
            k = k + 1;
        }
        assert(texts(blocks@) =~= Seq::new(self@.blocks.len(), |i: int| self@.blocks[i].0.hash));
        let blocks_set = self.blocks_set.to_vec();
        proof {
            self.blocks_set.lemma_order();
            assert(texts(blocks_set@) =~= self.blocks_set.order());
        }
        Details {
            state: self.state(),
            heads: self.heads(),
            recent_blocks_queue,
            recent_blocks,
            forks,
            blocks,
            blocks_set,
        }
    }

    /// Whether some fork holds `hash` in its set of hashes. A network that
    /// only accepts blocks whose hash no fork holds stays coherent.
    pub fn holds(&self, hash: &String) -> (held: bool)
        ensures
            held == self@.holds(hash@),
    {
        let mut i: usize = 0;
        while i < self.forks.len()
            invariant
                i <= self.forks.len(),
                forall|j: int|
                    0 <= j < i ==> !(#[trigger] self@.forks[j]).chain.blocks_set.contains(hash@),
            decreases self.forks.len() - i,
        {
            if self.forks[i].chain.blocks_set.contains(hash) {
                assert(self@.forks[i as int].chain.blocks_set.contains(hash@));
                return true;
            }
            i = i + 1;
        }
        false
    }

    /// The forks, in the order in which their tips were accepted.
    pub fn forks(&self) -> (forks: &Vec<Fork>)
        ensures
            fork_views(forks@) == self@.forks,
    {
        &self.forks
    }

    /// The cache of recent tips.
    pub fn recent(&self) -> (recent: &RecentCache)
        ensures
            recent@ == self@.recent,
    {
        &self.recent
    }

    /// The blocks of the main chain with the time at which each was
    /// accepted.
    pub fn blocks(&self) -> (blocks: &Vec<(Block, u128)>)
        ensures
            block_views(blocks@) == self@.blocks,
    {
        &self.blocks
    }

    /// The hashes of the main chain.
    pub fn blocks_set(&self) -> (set: &Hashes)
        ensures
            set@ == self@.blocks_set,
    {
        &self.blocks_set
    }

    /// The number of recent tips that the cache holds at most.
    pub fn recent_count_limit(&self) -> (limit: usize)
        ensures
            limit == self@.recent.limit,
    {
        self.recent.limit()
    }
}

/// What `Network::print_details` gathers.
#[derive(Debug)]
pub struct Details {
    pub state: Result<ChainState, LedgerError>,
    pub heads: Result<Vec<Head>, LedgerError>,
    pub recent_blocks_queue: Vec<String>,
    pub recent_blocks: Vec<String>,
    pub forks: Vec<String>,
    pub blocks: Vec<String>,
    pub blocks_set: Vec<String>,
}

/// The texts of a list of strings.
pub open spec fn texts(list: Seq<String>) -> Seq<Seq<char>> {
    Seq::new(list.len(), |i: int| list[i]@)
}

/// Whether `r` answers the query for the state: the state of the main
/// chain, or that no chain was initialized.
pub open spec fn answers_state(net: NetworkView, r: Result<ChainState, LedgerError>) -> bool {
    match r {
        Ok(state) => net.initialized() && state@ == net.state,
        Err(e) => !net.initialized() && e == LedgerError::MustInitializeFirst,
    }
}

/// Whether `r` answers the query for the heads: the heads in the order of
/// the forks, or that no chain was initialized.
pub open spec fn answers_heads(net: NetworkView, r: Result<Vec<Head>, LedgerError>) -> bool {
    match r {
        Ok(heads) => net.initialized() && head_views(heads@) == net.heads,
        Err(e) => !net.initialized() && e == LedgerError::MustInitializeFirst,
    }
}

/// Whether `details` describes the network: the answers to the two
/// queries, the queue of the cache in its order, the hashes that have an
/// entry in the cache, the tips in the order of the forks, the hashes of
/// the main chain in its order, and the set of hashes of the main chain,
/// each listed once.
pub open spec fn describes(net: NetworkView, details: Details) -> bool {
    &&& answers_state(net, details.state)
    &&& answers_heads(net, details.heads)
    &&& texts(details.recent_blocks_queue@) == net.recent.queue
    &&& texts(details.recent_blocks@).to_set() == net.recent.entries.dom()
    &&& texts(details.forks@) == Seq::new(net.forks.len(), |i: int| net.forks[i].hash)
    &&& texts(details.blocks@) == Seq::new(net.blocks.len(), |i: int| net.blocks[i].0.hash)
    &&& texts(details.blocks_set@).to_set() == net.blocks_set
    &&& texts(details.blocks_set@).no_duplicates()
}

} // verus!
