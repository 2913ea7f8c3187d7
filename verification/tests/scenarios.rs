use mycoinlib::adapter::{init_chain, response_line, run_query, submit_block, QueryReply};
use mycoinlib::{
    Block, Hashable, InitGenesis, LedgerError, Network, Output, SubmittedBlock, Transaction,
};

const H0: &str = "0x4f9e576f4fc28a7ca38966e7d956b6c715718d4a46ecfaa1328c29bee1797826";

fn o(id: u64, amount: u64) -> Output {
    Output { id, amount }
}

fn tx(inputs: Vec<Output>, outputs: Vec<Output>) -> Transaction {
    Transaction { inputs, outputs }
}

fn genesis() -> Block {
    Block::new(0, H0.to_string(), 0, "0x0".to_string(), vec![])
}

fn mined(difficulty: u32, predecessor: &str, transactions: Vec<Transaction>) -> Block {
    let mut block = Block::new(difficulty, String::new(), 0, predecessor.to_string(), transactions);
    loop {
        let hash = block.hash();
        if hash[2..].chars().take(difficulty as usize).all(|c| c == '0') {
            block.hash = hash;
            return block;
        }
        block.nonce += 1;
    }
}

fn state_of(network: &Network) -> mycoinlib::ChainState {
    match run_query(&"state".to_string(), network) {
        Some(QueryReply::State(Ok(state))) => state,
        other => panic!("no state: {:?}", other),
    }
}

#[test]
fn genesis_accepted() {
    let mut network = Network::new(2);
    assert_eq!(init_chain(InitGenesis { init: genesis() }, &mut network), Ok(()));
    let state = state_of(&network);
    assert_eq!(state.height, 1);
    assert_eq!(state.totalWork, 1);
    assert_eq!(state.hash, H0);
    assert_eq!(state.outputs, vec![]);
}

#[test]
fn duplicate_submission() {
    let mut network = Network::new(2);
    assert_eq!(init_chain(InitGenesis { init: genesis() }, &mut network), Ok(()));
    assert_eq!(
        init_chain(InitGenesis { init: genesis() }, &mut network),
        Err(LedgerError::DuplicateHash)
    );
    assert_eq!(LedgerError::DuplicateHash.message(), "duplicate hash");
    assert_eq!(network.forks().len(), 1);
}

#[test]
fn unknown_predecessor() {
    let mut network = Network::new(2);
    init_chain(InitGenesis { init: genesis() }, &mut network).unwrap();
    let orphan = mined(0, "0xdeadbeef", vec![]);
    assert_eq!(
        submit_block(SubmittedBlock { block: orphan }, &mut network),
        Err(LedgerError::NoPredecessorFound)
    );
    assert_eq!(LedgerError::NoPredecessorFound.message(), "no predecessor found");
    assert_eq!(state_of(&network).hash, H0);
}

#[test]
fn fork_choice_tie_broken_by_earlier_timestamp() {
    let a = mined(1, "0x0", vec![]);
    let b = mined(1, "0x1", vec![]);
    assert_eq!(a.hash, "0x010b8cf38dc317dc3b6450c0321c0a35a8b32a31a5ad07ca25fb391894d2d5c2");
    assert_eq!(b.hash, "0x06eccab51c5accbb217b484f2315268103597baca67d5df932c155386123b4ab");
    assert!(a.validate().is_ok() && b.validate().is_ok());
    let mut network = Network::new(2);
    assert_eq!(network.init_at(a.clone(), 1000), Ok(()));
    assert_eq!(network.init_at(b.clone(), 1001), Ok(()));
    let state = state_of(&network);
    assert_eq!(state.hash, a.hash);
    assert_eq!(state.totalWork, 16);
    assert_eq!(state.height, 1);
    match run_query(&"heads".to_string(), &network) {
        Some(QueryReply::Heads(Ok(heads))) => {
            assert_eq!(heads.len(), 2);
            assert_eq!(heads[0].hash, a.hash);
            assert_eq!(heads[1].hash, b.hash);
            assert_eq!(heads[0].totalWork, heads[1].totalWork);
        },
        other => panic!("no heads: {:?}", other),
    }
}

#[test]
fn double_spend_rejected() {
    let mut network = Network::new(2);
    let funding = mined(0, "0x0", vec![tx(vec![], vec![o(1, 5)])]);
    assert_eq!(
        funding.hash,
        "0x7ce2e6a67a90c25823d394e39eb7e401c50b5b4b26b3d48091680f28cf632d9b"
    );
    init_chain(InitGenesis { init: funding.clone() }, &mut network).unwrap();
    assert_eq!(state_of(&network).outputs, vec![o(1, 5)]);
    let twice = mined(
        0,
        &funding.hash,
        vec![tx(vec![o(1, 5)], vec![o(2, 5)]), tx(vec![o(1, 5)], vec![o(3, 5)])],
    );
    assert_eq!(
        submit_block(SubmittedBlock { block: twice }, &mut network),
        Err(LedgerError::InvalidTransaction)
    );
    assert_eq!(LedgerError::InvalidTransaction.message(), "invalid transaction");
    let state = state_of(&network);
    assert_eq!(state.height, 1);
    assert_eq!(state.hash, funding.hash);
    assert_eq!(state.outputs, vec![o(1, 5)]);
    assert_eq!(network.forks().len(), 1);
}

#[test]
fn deep_fork_via_slow_path() {
    let mut network = Network::new(2);
    let first = mined(0, "0x0", vec![tx(vec![], vec![o(1, 5)])]);
    init_chain(InitGenesis { init: first.clone() }, &mut network).unwrap();
    let mut tip = first.hash.clone();
    for step in 1..5u64 {
        let next = mined(0, &tip, vec![tx(vec![o(step, 5)], vec![o(step + 1, 5)])]);
        tip = next.hash.clone();
        assert_eq!(submit_block(SubmittedBlock { block: next }, &mut network), Ok(()));
    }
    assert_eq!(state_of(&network).height, 5);
    assert_eq!(state_of(&network).outputs, vec![o(5, 5)]);
    assert_eq!(network.recent().queue().len(), 2);
    assert!(network.recent().get(&first.hash).is_none());
    let branch = mined(0, &first.hash, vec![]);
    let branch_hash = branch.hash.clone();
    assert_eq!(submit_block(SubmittedBlock { block: branch }, &mut network), Ok(()));
    let fork = network.forks().iter().find(|f| f.hash == branch_hash).unwrap();
    assert_eq!(fork.height, 2);
    assert_eq!(fork.total_work, 2);
    assert_eq!(fork.chain.blocks().len(), 2);
    assert_eq!(fork.chain.blocks()[0].0.hash, first.hash);
    assert_eq!(fork.chain.outputs(), &vec![o(1, 5)]);
    assert_eq!(fork.chain.outputs_set().to_vec(), vec![o(1, 5)]);
    assert_eq!(state_of(&network).hash, tip);
    assert_eq!(state_of(&network).outputs, vec![o(5, 5)]);
}

#[test]
fn adapter_rejects_a_block_that_does_not_validate() {
    let mut network = Network::new(2);
    let mut forged = genesis();
    forged.nonce = 7;
    assert_eq!(
        init_chain(InitGenesis { init: forged.clone() }, &mut network),
        Err(LedgerError::InvalidHash)
    );
    assert!(network.forks().is_empty());
    init_chain(InitGenesis { init: genesis() }, &mut network).unwrap();
    forged.predecessor = H0.to_string();
    assert_eq!(
        submit_block(SubmittedBlock { block: forged }, &mut network),
        Err(LedgerError::InvalidHash)
    );
    let mut unmined = Block::new(1, String::new(), 0, H0.to_string(), vec![]);
    unmined.hash = unmined.hash();
    assert!(!unmined.hash.starts_with("0x0"));
    assert_eq!(
        submit_block(SubmittedBlock { block: unmined }, &mut network),
        Err(LedgerError::LeadingZeroesMismatch)
    );
    assert_eq!(network.forks().len(), 1);
}

#[test]
fn adapter_submits_before_init() {
    let mut network = Network::new(2);
    assert_eq!(
        submit_block(SubmittedBlock { block: mined(0, H0, vec![]) }, &mut network),
        Err(LedgerError::MustInitializeFirst)
    );
}

#[test]
fn queries_are_dispatched_by_name() {
    let mut network = Network::new(2);
    assert!(matches!(
        run_query(&"state".to_string(), &network),
        Some(QueryReply::State(Err(LedgerError::MustInitializeFirst)))
    ));
    assert!(matches!(
        run_query(&"heads".to_string(), &network),
        Some(QueryReply::Heads(Err(LedgerError::MustInitializeFirst)))
    ));
    init_chain(InitGenesis { init: genesis() }, &mut network).unwrap();
    assert!(matches!(run_query(&"state".to_string(), &network), Some(QueryReply::State(Ok(_)))));
    assert!(matches!(run_query(&"heads".to_string(), &network), Some(QueryReply::Heads(Ok(_)))));
    match run_query(&"print".to_string(), &network) {
        Some(QueryReply::Details(details)) => {
            assert_eq!(details.blocks, vec![H0.to_string()]);
            assert_eq!(details.forks, vec![H0.to_string()]);
        },
        other => panic!("no details: {:?}", other),
    }
    assert!(run_query(&"State".to_string(), &network).is_none());
    assert!(run_query(&"".to_string(), &network).is_none());
    assert!(run_query(&"states".to_string(), &network).is_none());
}

#[test]
fn response_lines_are_literal() {
    assert_eq!(response_line(&Ok(())), "{\"ok\":[]}");
    assert_eq!(
        response_line(&Err(LedgerError::DuplicateHash)),
        "{\"error\":\"duplicate hash\"}"
    );
    assert_eq!(
        response_line(&Err(LedgerError::LeadingZeroesMismatch)),
        "{\"error\":\"leading zeroes in block hash did not match difficulty\"}"
    );
    let mut network = Network::new(2);
    assert_eq!(
        response_line(&init_chain(InitGenesis { init: genesis() }, &mut network)),
        "{\"ok\":[]}"
    );
    assert_eq!(
        response_line(&init_chain(InitGenesis { init: genesis() }, &mut network)),
        "{\"error\":\"duplicate hash\"}"
    );
    assert_eq!(
        response_line(&submit_block(
            SubmittedBlock { block: mined(0, "0xdeadbeef", vec![]) },
            &mut network
        )),
        "{\"error\":\"no predecessor found\"}"
    );
}
