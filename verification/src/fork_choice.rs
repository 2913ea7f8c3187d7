//! The fork-choice rule: among the tips, the one with the most total work
//! wins; among those of equal work, the one created earliest; among those
//! created at the same time, the one that comes first in the list of forks.

use crate::blockchain::ChainView;
use crate::transaction::Output;
use vstd::prelude::*;

verus! {

/// What a fork is in contracts: the hash of its tip, its height, the time
/// at which its tip was accepted, its total work, and its chain.
pub struct ForkView {
    pub hash: Seq<char>,
    pub height: u64,
    pub created_at: u128,
    pub total_work: u64,
    pub chain: ChainView,
}

/// What a head is in contracts.
pub struct HeadView {
    pub height: u64,
    pub total_work: u64,
    pub hash: Seq<char>,
}

/// What the state of the main chain is in contracts.
pub struct StateView {
    pub height: u64,
    pub total_work: u64,
    pub hash: Seq<char>,
    pub outputs: Seq<Output>,
}

impl ForkView {
    /// The head that stands for the fork.
    pub open spec fn head(self) -> HeadView {
        HeadView { height: self.height, total_work: self.total_work, hash: self.hash }
    }

    /// The summary of the fork as the state of the main chain.
    pub open spec fn summary(self) -> StateView {
        StateView {
            height: self.height,
            total_work: self.total_work,
            hash: self.hash,
            outputs: self.chain.outputs,
        }
    }

    /// Whether this fork is strictly preferred to `other`: more total work,
    /// or the same work and an earlier tip.
    pub open spec fn outranks(self, other: ForkView) -> bool {
        self.total_work > other.total_work || (self.total_work == other.total_work
            && self.created_at < other.created_at)
    }
}

/// The heads of a list of forks, in the order of the forks.
pub open spec fn heads_of(forks: Seq<ForkView>) -> Seq<HeadView> {
    Seq::new(forks.len(), |i: int| forks[i].head())
}

/// The state before any chain was initialized.
pub open spec fn empty_state() -> StateView {
    StateView { height: 0, total_work: 0, hash: Seq::empty(), outputs: Seq::empty() }
}

/// Whether the fork at `index` wins: no fork outranks it, and it outranks
/// every fork before it in the list.
pub open spec fn is_winner(forks: Seq<ForkView>, index: int) -> bool {
    &&& 0 <= index < forks.len()
    &&& forall|j: int| 0 <= j < forks.len() ==> !(#[trigger] forks[j]).outranks(forks[index])
    &&& forall|j: int| 0 <= j < index ==> forks[index].outranks(#[trigger] forks[j])
}

/// The index of the fork that wins.
pub open spec fn winner_index(forks: Seq<ForkView>) -> int {
    choose|i: int| is_winner(forks, i)
}

/// The better of two candidates once one more fork is looked at.
pub open spec fn better(forks: Seq<ForkView>, best: int, next: int) -> int {
    if forks[next].outranks(forks[best]) {
        next
    } else {
        best
    }
}

/// At most one fork wins.
pub proof fn lemma_winner_unique(forks: Seq<ForkView>, i: int, j: int)
    requires
        is_winner(forks, i),
        is_winner(forks, j),
    ensures
        i == j,
{
    if i < j {
        assert(forks[j].outranks(forks[i]));
        assert(!forks[j].outranks(forks[i]));
    }
    if j < i {
        assert(forks[i].outranks(forks[j]));
        assert(!forks[i].outranks(forks[j]));
    }
}

/// A fork that wins is the winner.
pub proof fn lemma_winner_is(forks: Seq<ForkView>, i: int)
    requires
        is_winner(forks, i),
    ensures
        winner_index(forks) == i,
{
    lemma_winner_unique(forks, i, winner_index(forks));
}

/// The winner among the first `n + 1` forks is the better of the winner
/// among the first `n` and the fork at `n`.
pub proof fn lemma_winner_step(forks: Seq<ForkView>, n: int, best: int)
    requires
        0 < n < forks.len(),
        is_winner(forks.take(n), best),
    ensures
        is_winner(forks.take(n + 1), better(forks, best, n)),
{
    let before = forks.take(n);
    let after = forks.take(n + 1);
    let next = better(forks, best, n);
    assert(before[best] == forks[best]);
    assert(after[next] == forks[next]);
    assert forall|j: int| 0 <= j < after.len() implies !(#[trigger] after[j]).outranks(
        after[next],
    ) by {
        if j < n {
            assert(before[j] == after[j]);
            assert(!before[j].outranks(before[best]));
        }
    }
    assert forall|j: int| 0 <= j < next implies after[next].outranks(#[trigger] after[j]) by {
        assert(before[j] == after[j]);
        assert(!before[j].outranks(before[best]));
        if j < best {
            assert(before[best].outranks(before[j]));
        }
    }
}

/// Among one or more forks, one wins.
pub proof fn lemma_winner_exists(forks: Seq<ForkView>)
    requires
        forks.len() > 0,
    ensures
        is_winner(forks, winner_index(forks)),
    decreases forks.len(),
{
    if forks.len() == 1 {
        assert(is_winner(forks, 0));
    } else {
        let n = forks.len() - 1;
        lemma_winner_exists(forks.take(n));
        let best = winner_index(forks.take(n));
        lemma_winner_step(forks, n, best);
        assert(forks.take(n + 1) =~= forks);
        assert(is_winner(forks, better(forks, best, n)));
    }
}

/// The winner has the most total work of all forks, and the earliest tip
/// among the forks of that work.
pub proof fn lemma_winner_is_best(forks: Seq<ForkView>, j: int)
    requires
        0 <= j < forks.len(),
    ensures
        forks[j].total_work <= forks[winner_index(forks)].total_work,
        forks[j].total_work == forks[winner_index(forks)].total_work ==> forks[winner_index(
            forks,
        )].created_at <= forks[j].created_at,
{
    lemma_winner_exists(forks);
    assert(!forks[j].outranks(forks[winner_index(forks)]));
}

} // verus!
