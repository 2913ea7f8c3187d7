//! One chain of blocks with the outputs that it leaves unspent.

use crate::block::{Block, BlockView};
use crate::error::LedgerError;
use crate::sets::{Hashes, OutputSet};
use crate::transaction::Output;
use crate::utxo::{
    apply_block, created_by, hashes_of, lemma_hashes_of_push, lemma_replay_push, replay,
    spent_by, transaction_admissible, transactions_admissible,
};
use vstd::prelude::*;

verus! {

/// The envelope of a command that submits a block.
#[derive(Debug)]
pub struct SubmittedBlock {
    pub block: Block,
}

/// The envelope of a command that initializes a chain.
#[derive(Debug)]
pub struct InitGenesis {
    pub init: Block,
}

/// A single chain (a fork) of the network: its blocks with the time at
/// which each was accepted, the set of their hashes, and the unspent
/// outputs, as a set and as a list.
#[derive(Debug)]
pub struct Blockchain {
    pub(crate) blocks: Vec<(Block, u128)>,
    pub(crate) blocks_set: Hashes,
    pub(crate) outputs: Vec<Output>,
    pub(crate) outputs_set: OutputSet,
}

/// What a chain is in contracts.
pub struct ChainView {
    pub blocks: Seq<(BlockView, u128)>,
    pub blocks_set: Set<Seq<char>>,
    pub outputs: Seq<Output>,
    pub outputs_set: Set<Output>,
}

/// The views of a list of blocks, each with its time.
pub open spec fn block_views(blocks: Seq<(Block, u128)>) -> Seq<(BlockView, u128)> {
    Seq::new(blocks.len(), |i: int| (blocks[i].0@, blocks[i].1))
}

impl ChainView {
    /// The unspent outputs are what replaying the blocks from the first on
    /// leaves.
    pub open spec fn unspent_is_replay(self) -> bool {
        self.outputs_set == replay(self.blocks)
    }

    /// The set of hashes holds exactly the hashes of the blocks.
    pub open spec fn hashes_are_blocks(self) -> bool {
        self.blocks_set == hashes_of(self.blocks)
    }

    /// The chain after `block` is appended at time `at`.
    pub open spec fn appended(self, block: BlockView, at: u128, outputs: Seq<Output>) -> ChainView {
        ChainView {
            blocks: self.blocks.push((block, at)),
            blocks_set: self.blocks_set.insert(block.hash),
            outputs,
            outputs_set: apply_block(self.outputs_set, block),
        }
    }

    /// Whether the chain takes `block`: every transaction of the block must
    /// be admissible against the chain's unspent outputs.
    pub open spec fn admits(self, block: BlockView) -> bool {
        transactions_admissible(self.outputs_set, block.transactions)
    }
}

/// Appending a block to a chain whose unspent outputs are the replay of its
/// blocks gives such a chain.
pub proof fn lemma_append_keeps_unspent(
    chain: ChainView,
    block: BlockView,
    at: u128,
    outputs: Seq<Output>,
)
    requires
        chain.unspent_is_replay(),
    ensures
        chain.appended(block, at, outputs).unspent_is_replay(),
{
    lemma_replay_push(chain.blocks, block, at);
}

/// Appending a block to a chain whose set of hashes holds the hashes of its
/// blocks gives such a chain.
pub proof fn lemma_append_keeps_hashes(
    chain: ChainView,
    block: BlockView,
    at: u128,
    outputs: Seq<Output>,
)
    requires
        chain.hashes_are_blocks(),
    ensures
        chain.appended(block, at, outputs).hashes_are_blocks(),
{
    lemma_hashes_of_push(chain.blocks, block, at);
}

impl View for Blockchain {
    type V = ChainView;

    open(crate) spec fn view(&self) -> ChainView {
        ChainView {
            blocks: block_views(self.blocks@),
            blocks_set: self.blocks_set@,
            outputs: self.outputs@,
            outputs_set: self.outputs_set@,
        }
    }
}

/// The outputs that the transactions of a block spend and create.
fn block_effects(block: &Block) -> (effects: (OutputSet, OutputSet))
    ensures
        effects.0.wf(),
        effects.1.wf(),
        effects.0@ == spent_by(block@.transactions),
        effects.1@ == created_by(block@.transactions),
{
    let mut spent = OutputSet::new();
    let mut created = OutputSet::new();
    let mut i: usize = 0;
    while i < block.transactions.len()
        invariant
            i <= block.transactions.len(),
            spent.wf(),
            created.wf(),
            spent@ == spent_by(block@.transactions.take(i as int)),
            created@ == created_by(block@.transactions.take(i as int)),
        decreases block.transactions.len() - i,
    {
        let inputs = block.transactions[i].inputs();
        let outputs = block.transactions[i].outputs();
        spent.union_with(&inputs);
        created.union_with(&outputs);
        proof {
            let next = block@.transactions.take(i + 1);
            assert(next.drop_last() =~= block@.transactions.take(i as int));
            assert(next.last() == block.transactions@[i as int]@);
        }
        i = i + 1;
    }
    assert(block@.transactions.take(i as int) =~= block@.transactions);
    (spent, created)
}

/// Checks every transaction of a block against the unspent outputs; where
/// all are admissible, gives what they spend and create.
fn check_transactions(unspent: &OutputSet, block: &Block) -> (effects: Option<
    (OutputSet, OutputSet),
>)
    ensures
        match effects {
            Some((spent, created)) => {
                &&& transactions_admissible(unspent@, block@.transactions)
                &&& spent.wf()
                &&& created.wf()
                &&& spent@ == spent_by(block@.transactions)
                &&& created@ == created_by(block@.transactions)
            },
            None => !transactions_admissible(unspent@, block@.transactions),
        },
{
    let mut spent = OutputSet::new();
    let mut created = OutputSet::new();
    let mut i: usize = 0;
    while i < block.transactions.len()
        invariant
            i <= block.transactions.len(),
            spent.wf(),
            created.wf(),
            spent@ == spent_by(block@.transactions.take(i as int)),
            created@ == created_by(block@.transactions.take(i as int)),
            forall|j: int|
                0 <= j < i ==> #[trigger] transaction_admissible(
                    unspent@,
                    block@.transactions,
                    j,
                ),
        decreases block.transactions.len() - i,
    {
        let transaction = &block.transactions[i];
        let inputs = transaction.inputs();
        assert(block@.transactions[i as int] == transaction@);
        if !inputs.is_subset_of(unspent) || !inputs.is_disjoint_from(&spent) {
            assert(!transaction_admissible(unspent@, block@.transactions, i as int));
            return None;
        }
        if transaction.output_value() != transaction.input_value() {
            assert(!transaction_admissible(unspent@, block@.transactions, i as int));
            return None;
        }
        let outputs = transaction.outputs();
        spent.union_with(&inputs);
        created.union_with(&outputs);
        proof {
            let next = block@.transactions.take(i + 1);
            assert(next.drop_last() =~= block@.transactions.take(i as int));
            assert(next.last() == transaction@);
            assert(transaction_admissible(unspent@, block@.transactions, i as int));
        }
        i = i + 1;
    }
    assert(block@.transactions.take(i as int) =~= block@.transactions);
    Some((spent, created))
}

impl Blockchain {
    /// The representation is sound: nothing occurs twice in a set, and the
    /// list of unspent outputs is the walk of their set.
    pub open(crate) spec fn wf(&self) -> bool {
        &&& self.blocks_set.wf()
        &&& self.outputs_set.wf()
        &&& self.outputs@ == self.outputs_set.order()
    }

    /// The list of unspent outputs of a well-formed chain holds each
    /// unspent output once.
    pub proof fn lemma_outputs_list(&self)
        requires
            self.wf(),
        ensures
            self@.outputs.to_set() == self@.outputs_set,
            self@.outputs.no_duplicates(),
    {
        self.outputs_set.lemma_order();
    }

    /// A chain without blocks.
    pub fn new() -> (chain: Self)
        ensures
            chain.wf(),
            chain@.blocks == Seq::<(BlockView, u128)>::empty(),
            chain@.blocks_set == Set::<Seq<char>>::empty(),
            chain@.outputs == Seq::<Output>::empty(),
            chain@.outputs_set == Set::<Output>::empty(),
            chain@.unspent_is_replay(),
            chain@.hashes_are_blocks(),
    {
        let chain = Blockchain {
            blocks: Vec::new(),
            blocks_set: Hashes::new(),
            outputs: Vec::new(),
            outputs_set: OutputSet::new(),
        };
        assert(chain@.blocks =~= Seq::<(BlockView, u128)>::empty());
        assert(hashes_of(chain@.blocks) =~= Set::<Seq<char>>::empty());
        chain
    }

    /// Appends a block and applies what its transactions spend and create.
    fn apply(&mut self, spent: &OutputSet, created: &OutputSet, block: Block, timestamp: u128)
        requires
            old(self).wf(),
            spent@ == spent_by(block@.transactions),
            created@ == created_by(block@.transactions),
        ensures
            final(self).wf(),
            final(self)@ == old(self)@.appended(block@, timestamp, final(self)@.outputs),
    {
        self.outputs_set.remove_all(spent);
        self.outputs_set.union_with(created);
        self.outputs = self.outputs_set.to_vec();
        self.blocks_set.insert(block.hash.clone());
        let ghost before = self.blocks@;
        self.blocks.push((block, timestamp));
        assert(block_views(self.blocks@) =~= block_views(before).push((block@, timestamp)));
    }

    /// Seeds the chain with a block, whatever its transactions: the block
    /// is appended and what it spends and creates is applied.
    pub fn init(&mut self, block: Block, timestamp: u128) -> (done: bool)
        requires
            old(self).wf(),
        ensures
            done,
            final(self).wf(),
            final(self)@ == old(self)@.appended(block@, timestamp, final(self)@.outputs),
            old(self)@.unspent_is_replay() ==> final(self)@.unspent_is_replay(),
            old(self)@.hashes_are_blocks() ==> final(self)@.hashes_are_blocks(),
    {
        let (spent, created) = block_effects(&block);
        proof {
            lemma_append_keeps_both(old(self)@, block@, timestamp);
        }
        self.apply(&spent, &created, block, timestamp);
        true
    }

    /// Appends a block whose transactions are all admissible against the
    /// unspent outputs; rejects any other and leaves the chain as it was.
    pub fn submit(&mut self, block: Block, timestamp: u128) -> (r: Result<(), LedgerError>)
        requires
            old(self).wf(),
        ensures
            final(self).wf(),
            r is Ok <==> old(self)@.admits(block@),
            r is Ok ==> final(self)@ == old(self)@.appended(
                block@,
                timestamp,
                final(self)@.outputs,
            ),
            r is Ok && old(self)@.unspent_is_replay() ==> final(self)@.unspent_is_replay(),
            r is Ok && old(self)@.hashes_are_blocks() ==> final(self)@.hashes_are_blocks(),
            r is Err ==> r == Err::<(), LedgerError>(LedgerError::InvalidTransaction)
                && *final(self) == *old(self),
    {
        match check_transactions(&self.outputs_set, &block) {
            None => Err(LedgerError::InvalidTransaction),
            Some((spent, created)) => {
                proof {
                    lemma_append_keeps_both(old(self)@, block@, timestamp);
                }
                self.apply(&spent, &created, block, timestamp);
                Ok(())
            },
        }
    }

    /// The blocks with the time at which each was accepted.
    pub fn blocks(&self) -> (list: &Vec<(Block, u128)>)
        ensures
            block_views(list@) == self@.blocks,
    {
        &self.blocks
    }

    /// The hashes of the blocks.
    pub fn blocks_set(&self) -> (set: &Hashes)
        ensures
            set@ == self@.blocks_set,
    {
        &self.blocks_set
    }

    /// The unspent outputs as a list.
    pub fn outputs(&self) -> (list: &Vec<Output>)
        ensures
            list@ == self@.outputs,
    {
        &self.outputs
    }

    /// The unspent outputs as a set.
    pub fn outputs_set(&self) -> (set: &OutputSet)
        ensures
            set@ == self@.outputs_set,
    {
        &self.outputs_set
    }
}

/// Appending keeps what holds of a chain's sets, whatever the list of
/// outputs holds.
proof fn lemma_append_keeps_both(chain: ChainView, block: BlockView, at: u128)
    ensures
        forall|outputs: Seq<Output>|
            chain.unspent_is_replay() ==> (#[trigger] chain.appended(
                block,
                at,
                outputs,
            )).unspent_is_replay(),
        forall|outputs: Seq<Output>|
            chain.hashes_are_blocks() ==> (#[trigger] chain.appended(
                block,
                at,
                outputs,
            )).hashes_are_blocks(),
{
    assert forall|outputs: Seq<Output>| chain.unspent_is_replay() implies (
    #[trigger] chain.appended(block, at, outputs)).unspent_is_replay() by {
        lemma_append_keeps_unspent(chain, block, at, outputs);
    }
    assert forall|outputs: Seq<Output>| chain.hashes_are_blocks() implies (
    #[trigger] chain.appended(block, at, outputs)).hashes_are_blocks() by {
        lemma_append_keeps_hashes(chain, block, at, outputs);
    }
}

/// Copies the first `count` blocks of a list.
pub fn clone_prefix(blocks: &Vec<(Block, u128)>, count: usize) -> (copy: Vec<(Block, u128)>)
    requires
        count <= blocks@.len(),
    ensures
        block_views(copy@) == block_views(blocks@).take(count as int),
{
    let mut copy: Vec<(Block, u128)> = Vec::new();
    let mut i: usize = 0;
    while i < count
        invariant
            i <= count <= blocks@.len(),
            copy@.len() == i,
            forall|j: int| 0 <= j < i ==> copy@[j].0@ == blocks@[j].0@ && copy@[j].1 == blocks@[j].1,
        decreases count - i,
    {
        copy.push((blocks[i].0.clone(), blocks[i].1));
        i = i + 1;
    }
    assert(block_views(copy@) =~= block_views(blocks@).take(count as int));
    copy
}

/// Copies a list of blocks.
pub fn clone_blocks(blocks: &Vec<(Block, u128)>) -> (copy: Vec<(Block, u128)>)
    ensures
        block_views(copy@) == block_views(blocks@),
{
    let copy = clone_prefix(blocks, blocks.len());
    assert(block_views(blocks@).take(blocks@.len() as int) =~= block_views(blocks@));
    copy
}

impl Clone for Blockchain {
    fn clone(&self) -> (copy: Self)
        ensures
            copy@ == self@,
            copy.wf() == self.wf(),
    {
        let outputs = self.outputs.clone();
        assert(outputs@ =~= self.outputs@);
        Blockchain {
            blocks: clone_blocks(&self.blocks),
            blocks_set: self.blocks_set.clone(),
            outputs,
            outputs_set: self.outputs_set.clone(),
        }
    }
}

} // verus!
