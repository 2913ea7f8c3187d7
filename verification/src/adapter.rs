//! The commands that a client sends, once their envelopes are parsed:
//! initialize a chain, submit a block, or ask a query.

use crate::block::BlockView;
use crate::blockchain::{InitGenesis, SubmittedBlock};
use crate::error::LedgerError;
use crate::ledger::NetworkView;
use crate::network::{
    answers_heads, answers_state, describes, ChainState, Details, Head, Network,
};
use vstd::prelude::*;
use vstd::string::StringExecFns;

verus! {

/// What a query is answered.
#[derive(Debug)]
pub enum QueryReply {
    /// The answer to `state`.
    State(Result<ChainState, LedgerError>),
    /// The answer to `heads`.
    Heads(Result<Vec<Head>, LedgerError>),
    /// The answer to `print`.
    Details(Details),
}

/// What a command that initializes a chain is answered: a block that does
/// not validate is rejected for that; one that does is handed to the
/// network.
pub open spec fn init_answer(net: NetworkView, block: BlockView) -> Result<(), LedgerError> {
    match block.check_against(block.canonical_hash()) {
        Err(e) => Err(e),
        Ok(_) => net.init_verdict(block),
    }
}

/// What a command that submits a block is answered: a block that does not
/// validate is rejected for that; one that does is handed to the network.
pub open spec fn submit_answer(net: NetworkView, block: BlockView) -> Result<(), LedgerError> {
    match block.check_against(block.canonical_hash()) {
        Err(e) => Err(e),
        Ok(_) => net.submit_verdict(block),
    }
}

/// Initializes a chain with the block of the envelope, if it validates.
pub fn init_chain(envelope: InitGenesis, network: &mut Network) -> (r: Result<(), LedgerError>)
    requires
        old(network).wf(),
    ensures
        final(network).wf(),
        r == init_answer(old(network)@, envelope.init@),
        r is Err ==> *final(network) == *old(network),
        r is Ok ==> exists|timestamp: u128|
            final(network)@ == #[trigger] old(network)@.after_init(
                envelope.init@,
                timestamp,
                final(network)@.forks.last().chain.outputs,
            ),
        r is Ok && old(network)@.coherent() && !old(network)@.holds(envelope.init@.hash)
            ==> final(network)@.coherent(),
{
    let block = envelope.init;
    match block.validate() {
        Err(e) => Err(e),
        Ok(_) => network.init(block),
    }
}

/// Submits the block of the envelope, if it validates.
pub fn submit_block(envelope: SubmittedBlock, network: &mut Network) -> (r: Result<
    (),
    LedgerError,
>)
    requires
        old(network).wf(),
    ensures
        final(network).wf(),
        r == submit_answer(old(network)@, envelope.block@),
        r is Err ==> *final(network) == *old(network),
        r is Ok ==> exists|timestamp: u128|
            final(network)@ == #[trigger] old(network)@.after_submit(
                envelope.block@,
                timestamp,
                final(network)@.forks.last().chain.outputs,
            ),
        r is Ok && old(network)@.coherent() && !old(network)@.holds(envelope.block@.hash)
            ==> final(network)@.coherent(),
{
    let block = envelope.block;
    match block.validate() {
        Err(e) => Err(e),
        Ok(_) => network.submit(block),
    }
}

/// The line that reports the outcome of a command: `{"ok":[]}`, or
/// `{"error":"<message>"}` with the message of the error.
pub open spec fn response_text(outcome: Result<(), LedgerError>) -> Seq<char> {
    match outcome {
        Ok(_) => "{\"ok\":[]}"@,
        Err(e) => "{\"error\":\""@ + e.message_text() + "\"}"@,
    }
}

/// Renders the line that reports the outcome of a command.
pub fn response_line(outcome: &Result<(), LedgerError>) -> (line: String)
    ensures
        line@ == response_text(*outcome),
{
    match outcome {
        Ok(_) => String::from_str("{\"ok\":[]}"),
        Err(e) => {
            let mut line = String::from_str("{\"error\":\"");
            line.append(e.message());
            line.append("\"}");
            line
        },
    }
}

/// Answers the query `state`, `heads` or `print`; any other is ignored.
pub fn run_query(query: &String, network: &Network) -> (reply: Option<QueryReply>)
    requires
        network.wf(),
    ensures
        match reply {
            Some(QueryReply::State(r)) => query@ == "state"@ && answers_state(network@, r),
            Some(QueryReply::Heads(r)) => query@ == "heads"@ && answers_heads(network@, r),
            Some(QueryReply::Details(details)) => query@ == "print"@ && describes(
                network@,
                details,
            ),
            None => query@ != "state"@ && query@ != "heads"@ && query@ != "print"@,
        },
{
    if *query == String::from_str("state") {
        Some(QueryReply::State(network.state()))
    } else if *query == String::from_str("heads") {
        Some(QueryReply::Heads(network.heads()))
    } else if *query == String::from_str("print") {
        Some(QueryReply::Details(network.print_details()))
    } else {
        None
    }
}

} // verus!
