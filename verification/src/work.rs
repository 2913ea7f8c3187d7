//! Total work: each block counts 16 to the power of its difficulty, and a
//! chain counts the sum of its blocks. Work is kept in 64 bits and
//! saturates: whatever does not fit counts as the largest value.

use crate::block::BlockView;
use vstd::prelude::*;

verus! {

/// 16 to the power of `d`.
pub open spec fn pow16(d: nat) -> nat
    decreases d,
{
    if d == 0 {
        1
    } else {
        16 * pow16((d - 1) as nat)
    }
}

/// A number kept in 64 bits: itself where it fits, else the largest value.
pub open spec fn saturate(n: nat) -> u64 {
    if n > u64::MAX {
        u64::MAX
    } else {
        n as u64
    }
}

/// The work of one block of the given difficulty.
pub open spec fn block_work(difficulty: u32) -> u64 {
    saturate(pow16(difficulty as nat))
}

/// The sum of two amounts of work.
pub open spec fn add_work(a: u64, b: u64) -> u64 {
    saturate((a + b) as nat)
}

/// The work of a chain, unbounded: the sum over its blocks.
pub open spec fn chain_work(blocks: Seq<(BlockView, u128)>) -> nat
    decreases blocks.len(),
{
    if blocks.len() == 0 {
        0
    } else {
        chain_work(blocks.drop_last()) + pow16(blocks.last().0.difficulty as nat)
    }
}

/// Powers of 16 grow with the exponent.
pub proof fn lemma_pow16_grows(a: nat, b: nat)
    requires
        a <= b,
    ensures
        1 <= pow16(a) <= pow16(b),
    decreases b,
{
    if a < b {
        lemma_pow16_grows(a, (b - 1) as nat);
    } else if a > 0 {
        lemma_pow16_grows((a - 1) as nat, (a - 1) as nat);
    }
}

/// 16^15 is the last power that fits in 64 bits; 16^16 does not.
pub proof fn lemma_pow16_limits()
    ensures
        pow16(15) == 0x1000_0000_0000_0000,
        pow16(16) > u64::MAX,
{
    reveal_with_fuel(pow16, 18);
}

/// Saturating after each step gives what saturating the exact sum gives.
pub proof fn lemma_saturate_sum(a: nat, b: nat)
    ensures
        add_work(saturate(a), saturate(b)) == saturate(a + b),
{
}

/// The saturated work of a chain with one more block.
pub proof fn lemma_chain_work_push(blocks: Seq<(BlockView, u128)>, block: BlockView, at: u128)
    ensures
        saturate(chain_work(blocks.push((block, at)))) == add_work(
            saturate(chain_work(blocks)),
            block_work(block.difficulty),
        ),
{
    assert(blocks.push((block, at)).drop_last() =~= blocks);
    lemma_saturate_sum(chain_work(blocks), pow16(block.difficulty as nat));
}

/// The work of one block of the given difficulty.
pub fn work_of(difficulty: u32) -> (work: u64)
    ensures
        work == block_work(difficulty),
{
    if difficulty >= 16 {
        proof {
            lemma_pow16_limits();
            lemma_pow16_grows(16, difficulty as nat);
        }
        return u64::MAX;
    }
    let mut work: u64 = 1;
    let mut i: u32 = 0;
    while i < difficulty
        invariant
            i <= difficulty < 16,
            work == pow16(i as nat),
        decreases difficulty - i,
    {
        proof {
            lemma_pow16_limits();
            lemma_pow16_grows(i as nat, 14);
            lemma_pow16_grows(14, 15);
        }
        work = work * 16;
        i = i + 1;
    }
    proof {
        lemma_pow16_limits();
        lemma_pow16_grows(difficulty as nat, 15);
    }
    work
}

/// The sum of two amounts of work.
pub fn sum_work(a: u64, b: u64) -> (sum: u64)
    ensures
        sum == add_work(a, b),
{
    a.saturating_add(b)
}

} // verus!
