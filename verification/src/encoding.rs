//! The canonical text of outputs and transactions: the exact characters
//! over which a block's hash is taken. No whitespace, keys in a fixed
//! order, integers in base 10 without padding.

use crate::transaction::{Output, Transaction, TransactionView};
use vstd::prelude::*;
use vstd::string::StringExecFns;

verus! {

/// The character of a decimal digit.
pub open spec fn digit_char(d: nat) -> char {
    if d == 0 {
        '0'
    } else if d == 1 {
        '1'
    } else if d == 2 {
        '2'
    } else if d == 3 {
        '3'
    } else if d == 4 {
        '4'
    } else if d == 5 {
        '5'
    } else if d == 6 {
        '6'
    } else if d == 7 {
        '7'
    } else if d == 8 {
        '8'
    } else {
        '9'
    }
}

/// A number in base 10, most significant digit first, without padding.
pub open spec fn decimal_text(n: nat) -> Seq<char>
    decreases n,
{
    if n < 10 {
        seq![digit_char(n)]
    } else {
        decimal_text(n / 10).push(digit_char(n % 10))
    }
}

/// One output: `{"amount":<n>,"id":<n>}`.
pub open spec fn output_text(o: Output) -> Seq<char> {
    "{\"amount\":"@ + decimal_text(o.amount as nat) + ",\"id\":"@ + decimal_text(o.id as nat)
        + "}"@
}

/// A list of outputs in list order, separated by commas.
pub open spec fn outputs_text(items: Seq<Output>) -> Seq<char>
    decreases items.len(),
{
    if items.len() == 0 {
        Seq::empty()
    } else if items.len() == 1 {
        output_text(items[0])
    } else {
        outputs_text(items.drop_last()) + ","@ + output_text(items.last())
    }
}

/// One transaction: `{"inputs":[...],"outputs":[...]}`.
pub open spec fn transaction_text(t: TransactionView) -> Seq<char> {
    "{\"inputs\":["@ + outputs_text(t.inputs) + "],\"outputs\":["@ + outputs_text(t.outputs)
        + "]}"@
}

/// A list of transactions in list order, separated by commas.
pub open spec fn transactions_text(items: Seq<TransactionView>) -> Seq<char>
    decreases items.len(),
{
    if items.len() == 0 {
        Seq::empty()
    } else if items.len() == 1 {
        transaction_text(items[0])
    } else {
        transactions_text(items.drop_last()) + ","@ + transaction_text(items.last())
    }
}

/// The text of one decimal digit.
fn digit_str(d: u64) -> (s: &'static str)
    requires
        d < 10,
    ensures
        s@ == seq![digit_char(d as nat)],
{
    proof {
        reveal_strlit("0");
        reveal_strlit("1");
        reveal_strlit("2");
        reveal_strlit("3");
        reveal_strlit("4");
        reveal_strlit("5");
        reveal_strlit("6");
        reveal_strlit("7");
        reveal_strlit("8");
        reveal_strlit("9");
    }
    let s = if d == 0 {
        "0"
    } else if d == 1 {
        "1"
    } else if d == 2 {
        "2"
    } else if d == 3 {
        "3"
    } else if d == 4 {
        "4"
    } else if d == 5 {
        "5"
    } else if d == 6 {
        "6"
    } else if d == 7 {
        "7"
    } else if d == 8 {
        "8"
    } else {
        "9"
    };
    assert(s@ =~= seq![digit_char(d as nat)]);
    s
}

/// Appends `n` in base 10.
pub fn push_decimal(out: &mut String, n: u64)
    ensures
        final(out)@ == old(out)@ + decimal_text(n as nat),
    decreases n,
{
    if n >= 10 {
        push_decimal(out, n / 10);
    }
    out.append(digit_str(n % 10));
    assert(out@ =~= old(out)@ + decimal_text(n as nat));
}

/// Appends the text of one output.
pub fn push_output(out: &mut String, o: &Output)
    ensures
        final(out)@ == old(out)@ + output_text(*o),
{
    out.append("{\"amount\":");
    push_decimal(out, o.amount);
    out.append(",\"id\":");
    push_decimal(out, o.id);
    out.append("}");
    assert(out@ =~= old(out)@ + output_text(*o));
}

/// Appends the text of a list of outputs.
pub fn push_outputs(out: &mut String, items: &Vec<Output>)
    ensures
        final(out)@ == old(out)@ + outputs_text(items@),
{
    let mut i: usize = 0;
    while i < items.len()
        invariant
            i <= items.len(),
            out@ == old(out)@ + outputs_text(items@.take(i as int)),
        decreases items.len() - i,
    {
        let ghost before = out@;
        if i > 0 {
            out.append(",");
        }
        push_output(out, &items[i]);
        proof {
            let next = items@.take(i + 1);
            assert(next.drop_last() =~= items@.take(i as int));
            assert(next.last() == items@[i as int]);
            assert(out@ =~= old(out)@ + outputs_text(next));
        }
        i = i + 1;
    }
    assert(items@.take(i as int) =~= items@);
}

/// Appends the text of one transaction.
pub fn push_transaction(out: &mut String, t: &Transaction)
    ensures
        final(out)@ == old(out)@ + transaction_text(t@),
{
    out.append("{\"inputs\":[");
    push_outputs(out, &t.inputs);
    out.append("],\"outputs\":[");
    push_outputs(out, &t.outputs);
    out.append("]}");
    assert(out@ =~= old(out)@ + transaction_text(t@));
}

} // verus!
