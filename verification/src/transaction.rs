//! Outputs and transactions: the values that blocks move around.

use crate::sets::OutputSet;
use vstd::prelude::*;

verus! {

/// An input or an output of a transaction. Two outputs are the same output
/// only if both the id and the amount agree.
#[derive(PartialEq, Eq, Structural, Clone, Copy, Debug, Hash)]
pub struct Output {
    pub id: u64,
    pub amount: u64,
}

/// A transaction spends its inputs and creates its outputs.
#[derive(Debug)]
pub struct Transaction {
    pub inputs: Vec<Output>,
    pub outputs: Vec<Output>,
}

/// What a transaction is in contracts: its two lists of outputs.
pub struct TransactionView {
    pub inputs: Seq<Output>,
    pub outputs: Seq<Output>,
}

/// The sum of the amounts of a list of outputs.
pub open spec fn total_amount(items: Seq<Output>) -> nat
    decreases items.len(),
{
    if items.len() == 0 {
        0
    } else {
        total_amount(items.drop_last()) + items.last().amount as nat
    }
}

/// A list of `n` amounts sums to at most `n` times the largest `u64`.
pub proof fn lemma_total_amount_bound(items: Seq<Output>)
    ensures
        total_amount(items) <= items.len() * 0xffff_ffff_ffff_ffff,
    decreases items.len(),
{
    if items.len() > 0 {
        lemma_total_amount_bound(items.drop_last());
        assert((items.len() - 1) * 0xffff_ffff_ffff_ffff + 0xffff_ffff_ffff_ffff == items.len()
            * 0xffff_ffff_ffff_ffff) by (nonlinear_arith);
    }
}

impl TransactionView {
    /// The sum of the amounts that the transaction spends.
    pub open spec fn input_value(self) -> nat {
        total_amount(self.inputs)
    }

    /// The sum of the amounts that the transaction creates.
    pub open spec fn output_value(self) -> nat {
        total_amount(self.outputs)
    }

    /// The outputs that the transaction spends, as a set.
    pub open spec fn input_set(self) -> Set<Output> {
        self.inputs.to_set()
    }

    /// The outputs that the transaction creates, as a set.
    pub open spec fn output_set(self) -> Set<Output> {
        self.outputs.to_set()
    }

    /// A coinbase spends nothing.
    pub open spec fn is_coinbase(self) -> bool {
        self.inputs.len() == 0
    }

    /// Conservation: the transaction creates exactly what it spends.
    pub open spec fn is_balanced(self) -> bool {
        self.input_value() == self.output_value()
    }
}

impl View for Transaction {
    type V = TransactionView;

    open spec fn view(&self) -> TransactionView {
        TransactionView { inputs: self.inputs@, outputs: self.outputs@ }
    }
}

/// Adds up the amounts of a list of outputs. The sum of fewer than 2^64
/// amounts below 2^64 always fits in 128 bits.
pub fn sum_amounts(items: &Vec<Output>) -> (total: u128)
    ensures
        total == total_amount(items@),
{
    let mut total: u128 = 0;
    let mut i: usize = 0;
    while i < items.len()
        invariant
            i <= items.len(),
            total == total_amount(items@.take(i as int)),
        decreases items.len() - i,
    {
        proof {
            let next = items@.take(i + 1);
            assert(next.drop_last() =~= items@.take(i as int));
            lemma_total_amount_bound(items@.take(i as int));
            assert(i * 0xffff_ffff_ffff_ffff + 0xffff_ffff_ffff_ffff
                <= 0xffff_ffff_ffff_ffff * 0x1_0000_0000_0000_0000) by (nonlinear_arith)
                requires
                    i < 0x1_0000_0000_0000_0000,
            ;
        }
        total = total + items[i].amount as u128;
        i = i + 1;
    }
    assert(items@.take(i as int) =~= items@);
    total
}

impl Transaction {
    /// The sum of the input amounts.
    pub fn input_value(&self) -> (total: u128)
        ensures
            total == self@.input_value(),
    {
        sum_amounts(&self.inputs)
    }

    /// The sum of the output amounts.
    pub fn output_value(&self) -> (total: u128)
        ensures
            total == self@.output_value(),
    {
        sum_amounts(&self.outputs)
    }

    /// The inputs as a set.
    pub fn inputs(&self) -> (set: OutputSet)
        ensures
            set.wf(),
            set@ == self@.input_set(),
    {
        let mut set = OutputSet::new();
        set.extend_from(&self.inputs);
        assert(set@ =~= self@.input_set());
        set
    }

    /// The outputs as a set.
    pub fn outputs(&self) -> (set: OutputSet)
        ensures
            set.wf(),
            set@ == self@.output_set(),
    {
        let mut set = OutputSet::new();
        set.extend_from(&self.outputs);
        assert(set@ =~= self@.output_set());
        set
    }

    /// Whether the transaction has no inputs.
    pub fn is_coinbase(&self) -> (b: bool)
        ensures
            b == self@.is_coinbase(),
    {
        self.inputs.len() == 0
    }
}

impl Clone for Transaction {
    fn clone(&self) -> (copy: Self)
        ensures
            copy@ == self@,
    {
        let inputs = self.inputs.clone();
        let outputs = self.outputs.clone();
        assert(inputs@ =~= self.inputs@);
        assert(outputs@ =~= self.outputs@);
        Transaction { inputs, outputs }
    }
}

} // verus!
