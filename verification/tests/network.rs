use mycoinlib::network::Fork;
use mycoinlib::{now, Block, Blockchain, Head, LedgerError, Network, Output, Transaction};

fn o(id: u64, amount: u64) -> Output {
    Output { id, amount }
}

fn tx(inputs: Vec<Output>, outputs: Vec<Output>) -> Transaction {
    Transaction { inputs, outputs }
}

fn block(difficulty: u32, hash: &str, predecessor: &str, transactions: Vec<Transaction>) -> Block {
    Block::new(difficulty, hash.to_string(), 0, predecessor.to_string(), transactions)
}

fn sorted(mut list: Vec<Output>) -> Vec<Output> {
    list.sort_by_key(|x| (x.id, x.amount));
    list
}

fn strings(list: &[&str]) -> Vec<String> {
    list.iter().map(|s| s.to_string()).collect()
}

fn replayed(chain: &Blockchain) -> Vec<Output> {
    let mut unspent: Vec<Output> = vec![];
    for (block, _) in chain.blocks() {
        let mut spent: Vec<Output> = vec![];
        let mut created: Vec<Output> = vec![];
        for t in &block.transactions {
            spent.extend(t.inputs.iter().copied());
            created.extend(t.outputs.iter().copied());
        }
        unspent.retain(|x| !spent.contains(x));
        for c in created {
            if !unspent.contains(&c) {
                unspent.push(c);
            }
        }
    }
    sorted(unspent)
}

fn check_invariants(network: &Network) {
    let forks: &Vec<Fork> = network.forks();
    let heads: Vec<Head> = network.heads().unwrap_or(vec![]);
    assert_eq!(heads.len(), forks.len());
    for (head, fork) in heads.iter().zip(forks.iter()) {
        assert_eq!(head.hash, fork.hash);
        assert_eq!(head.height, fork.height);
        assert_eq!(head.totalWork, fork.total_work);
    }
    for fork in forks {
        assert_eq!(sorted(fork.chain.outputs_set().to_vec()), replayed(&fork.chain));
        assert_eq!(sorted(fork.chain.outputs().clone()), replayed(&fork.chain));
        let mut hashes: Vec<String> = fork.chain.blocks().iter().map(|b| b.0.hash.clone()).collect();
        let mut set = fork.chain.blocks_set().to_vec();
        hashes.sort();
        set.sort();
        assert_eq!(set, hashes);
        assert_eq!(fork.height as usize, fork.chain.blocks().len());
        assert_eq!(fork.chain.blocks().last().unwrap().0.hash, fork.hash);
    }
    let queue = network.recent().queue();
    assert!(queue.len() <= network.recent_count_limit());
    for hash in &queue {
        assert!(network.recent().get(hash).is_some());
    }
    if let Some(best) = forks.iter().max_by(|a, b| {
        a.total_work.cmp(&b.total_work).then(b.created_at.cmp(&a.created_at))
    }) {
        let state = network.state().unwrap();
        assert_eq!(state.totalWork, best.total_work);
        assert_eq!(state.height, forks.iter().find(|f| f.hash == state.hash).unwrap().height);
        assert_eq!(network.blocks().last().unwrap().0.hash, state.hash);
    }
}

fn chain_of_three() -> Network {
    let mut network = Network::new(2);
    network.init_at(block(0, "0xg", "0x0", vec![tx(vec![], vec![o(1, 5)])]), 100).unwrap();
    network.submit_at(block(0, "0xa1", "0xg", vec![tx(vec![o(1, 5)], vec![o(2, 5)])]), 200).unwrap();
    network.submit_at(block(0, "0xa2", "0xa1", vec![tx(vec![o(2, 5)], vec![o(3, 5)])]), 300).unwrap();
    network
}

#[test]
fn new_network_is_empty() {
    let network = Network::new(2);
    assert_eq!(network.recent_count_limit(), 2);
    assert!(network.forks().is_empty());
    assert!(network.blocks().is_empty());
    assert_eq!(network.blocks_set().len(), 0);
    assert_eq!(network.state(), Err(LedgerError::MustInitializeFirst));
    assert_eq!(network.heads(), Err(LedgerError::MustInitializeFirst));
    assert!(network.recent().queue().is_empty());
    check_invariants(&network);
}

#[test]
fn main_chain_of_empty_network_is_empty() {
    let network = Network::new(3);
    let (blocks, set, state) = network.get_main_chain();
    assert!(blocks.is_empty());
    assert_eq!(set.len(), 0);
    assert_eq!(state.height, 0);
    assert_eq!(state.totalWork, 0);
    assert_eq!(state.hash, "");
    assert!(state.outputs.is_empty());
}

#[test]
fn submit_before_init_is_rejected() {
    let mut network = Network::new(2);
    assert_eq!(
        network.submit_at(block(0, "0xa", "0xg", vec![]), 1),
        Err(LedgerError::MustInitializeFirst)
    );
    assert_eq!(network.submit(block(5, "nonsense", "0xg", vec![])), Err(LedgerError::MustInitializeFirst));
    assert!(network.forks().is_empty());
}

#[test]
fn init_creates_a_fork_of_one_block() {
    let mut network = Network::new(2);
    assert_eq!(network.init_at(block(2, "0xg", "0x0", vec![tx(vec![], vec![o(1, 5)])]), 100), Ok(()));
    let forks = network.forks();
    assert_eq!(forks.len(), 1);
    assert_eq!(forks[0].hash, "0xg");
    assert_eq!(forks[0].height, 1);
    assert_eq!(forks[0].created_at, 100);
    assert_eq!(forks[0].total_work, 256);
    assert_eq!(forks[0].chain.outputs(), &vec![o(1, 5)]);
    assert_eq!(
        network.heads(),
        Ok(vec![Head { height: 1, totalWork: 256, hash: "0xg".to_string() }])
    );
    let state = network.state().unwrap();
    assert_eq!(state.height, 1);
    assert_eq!(state.totalWork, 256);
    assert_eq!(state.hash, "0xg");
    assert_eq!(state.outputs, vec![o(1, 5)]);
    assert_eq!(network.recent().queue(), strings(&["0xg"]));
    check_invariants(&network);
}

#[test]
fn init_does_not_check_leading_zeroes() {
    let mut network = Network::new(2);
    assert_eq!(network.init_at(block(3, "0xabc", "0x0", vec![]), 1), Ok(()));
    assert_eq!(network.state().unwrap().totalWork, 4096);
}

#[test]
fn init_rejects_a_known_hash() {
    let mut network = chain_of_three();
    assert_eq!(network.init_at(block(0, "0xa2", "0x0", vec![]), 400), Err(LedgerError::DuplicateHash));
    assert_eq!(network.init_at(block(0, "0xg", "0x0", vec![]), 400), Err(LedgerError::DuplicateHash));
    assert_eq!(network.init(block(0, "0xa1", "0x0", vec![])), Err(LedgerError::DuplicateHash));
    assert_eq!(network.forks().len(), 1);
    assert_eq!(network.state().unwrap().hash, "0xa2");
    check_invariants(&network);
}

#[test]
fn several_roots_may_coexist() {
    let mut network = chain_of_three();
    assert_eq!(network.init_at(block(0, "0xr", "0x0", vec![]), 400), Ok(()));
    assert_eq!(network.forks().len(), 2);
    assert_eq!(network.state().unwrap().hash, "0xa2");
    assert_eq!(network.recent().queue(), strings(&["0xa1", "0xa2"]));
    check_invariants(&network);
}

#[test]
fn extending_a_tip_replaces_its_fork() {
    let network = chain_of_three();
    let forks = network.forks();
    assert_eq!(forks.len(), 1);
    assert_eq!(forks[0].hash, "0xa2");
    assert_eq!(forks[0].height, 3);
    assert_eq!(forks[0].created_at, 300);
    assert_eq!(forks[0].total_work, 3);
    assert_eq!(forks[0].chain.blocks().len(), 3);
    assert_eq!(
        network.heads(),
        Ok(vec![Head { height: 3, totalWork: 3, hash: "0xa2".to_string() }])
    );
    let state = network.state().unwrap();
    assert_eq!((state.height, state.totalWork, state.hash.as_str()), (3, 3, "0xa2"));
    assert_eq!(state.outputs, vec![o(3, 5)]);
    assert_eq!(network.blocks().len(), 3);
    assert_eq!(network.blocks()[1].1, 200);
    assert_eq!(network.blocks_set().to_vec(), strings(&["0xg", "0xa1", "0xa2"]));
    check_invariants(&network);
}

#[test]
fn submit_checks_leading_zeroes_first() {
    let mut network = chain_of_three();
    assert_eq!(
        network.submit_at(block(1, "0xa3", "0xnone", vec![]), 400),
        Err(LedgerError::LeadingZeroesMismatch)
    );
    assert_eq!(
        network.submit_at(block(0, "a3", "0xa2", vec![]), 400),
        Err(LedgerError::LeadingZeroesMismatch)
    );
    assert_eq!(
        network.submit_at(block(3, "0x00", "0xa2", vec![]), 400),
        Err(LedgerError::LeadingZeroesMismatch)
    );
    check_invariants(&network);
}

#[test]
fn submit_rejects_an_unknown_predecessor_before_a_duplicate() {
    let mut network = chain_of_three();
    assert_eq!(
        network.submit_at(block(0, "0xa2", "0xnone", vec![]), 400),
        Err(LedgerError::NoPredecessorFound)
    );
    check_invariants(&network);
}

#[test]
fn submit_rejects_a_known_hash() {
    let mut network = chain_of_three();
    assert_eq!(network.submit_at(block(0, "0xa2", "0xa1", vec![]), 400), Err(LedgerError::DuplicateHash));
    assert_eq!(network.submit_at(block(0, "0xg", "0xa2", vec![]), 400), Err(LedgerError::DuplicateHash));
    assert_eq!(network.forks().len(), 1);
    check_invariants(&network);
}

#[test]
fn difficulty_must_not_decrease() {
    let mut network = Network::new(2);
    network.init_at(block(2, "0x00g", "0x0", vec![]), 1).unwrap();
    assert_eq!(
        network.submit_at(block(1, "0x0a", "0x00g", vec![]), 2),
        Err(LedgerError::DifficultyDecreased)
    );
    assert_eq!(network.submit_at(block(2, "0x00a", "0x00g", vec![]), 2), Ok(()));
    assert_eq!(network.submit_at(block(3, "0x000b", "0x00a", vec![]), 3), Ok(()));
    assert_eq!(
        network.submit_at(block(2, "0x00c", "0x000b", vec![]), 4),
        Err(LedgerError::DifficultyDecreased)
    );
    assert_eq!(network.state().unwrap().totalWork, 256 + 256 + 4096);
    check_invariants(&network);
}

#[test]
fn difficulty_is_checked_before_transactions() {
    let mut network = Network::new(2);
    network.init_at(block(1, "0x0g", "0x0", vec![]), 1).unwrap();
    let invalid = tx(vec![o(1, 1)], vec![o(2, 1)]);
    assert_eq!(
        network.submit_at(block(0, "0xa", "0x0g", vec![invalid.clone()]), 2),
        Err(LedgerError::DifficultyDecreased)
    );
    assert_eq!(
        network.submit_at(block(1, "0x0a", "0x0g", vec![invalid]), 2),
        Err(LedgerError::InvalidTransaction)
    );
}

#[test]
fn rejected_transaction_leaves_the_network_unchanged() {
    let mut network = chain_of_three();
    let spent_already = tx(vec![o(1, 5)], vec![o(9, 5)]);
    assert_eq!(
        network.submit_at(block(0, "0xa3", "0xa2", vec![spent_already]), 400),
        Err(LedgerError::InvalidTransaction)
    );
    assert_eq!(network.forks().len(), 1);
    assert_eq!(network.forks()[0].hash, "0xa2");
    assert_eq!(network.state().unwrap().outputs, vec![o(3, 5)]);
    assert_eq!(network.recent().queue(), strings(&["0xa1", "0xa2"]));
    check_invariants(&network);
}

#[test]
fn more_work_wins_over_more_height() {
    let mut network = chain_of_three();
    network.init_at(block(1, "0x0r", "0x0", vec![tx(vec![], vec![o(7, 7)])]), 400).unwrap();
    let state = network.state().unwrap();
    assert_eq!(state.hash, "0x0r");
    assert_eq!(state.height, 1);
    assert_eq!(state.totalWork, 16);
    assert_eq!(state.outputs, vec![o(7, 7)]);
    assert_eq!(network.blocks().len(), 1);
    assert_eq!(network.blocks_set().to_vec(), strings(&["0x0r"]));
    assert_eq!(network.forks().len(), 2);
    check_invariants(&network);
}

#[test]
fn a_losing_block_does_not_enter_the_cache() {
    let mut network = chain_of_three();
    network.init_at(block(0, "0xr", "0x0", vec![]), 400).unwrap();
    assert!(network.recent().get(&"0xr".to_string()).is_none());
    assert_eq!(network.recent().queue(), strings(&["0xa1", "0xa2"]));
    assert_eq!(network.state().unwrap().hash, "0xa2");
}

#[test]
fn equal_work_goes_to_the_earlier_tip() {
    let mut network = Network::new(2);
    network.init_at(block(0, "0xlate", "0x0", vec![]), 500).unwrap();
    network.init_at(block(0, "0xearly", "0x0", vec![]), 400).unwrap();
    assert_eq!(network.state().unwrap().hash, "0xearly");
    network.init_at(block(0, "0xlater", "0x0", vec![]), 600).unwrap();
    assert_eq!(network.state().unwrap().hash, "0xearly");
    check_invariants(&network);
}

#[test]
fn equal_work_and_time_goes_to_the_first_fork() {
    let mut network = Network::new(2);
    network.init_at(block(0, "0xone", "0x0", vec![]), 500).unwrap();
    network.init_at(block(0, "0xtwo", "0x0", vec![]), 500).unwrap();
    assert_eq!(network.state().unwrap().hash, "0xone");
    assert_eq!(network.get_main_chain().2.hash, "0xone");
}

#[test]
fn total_work_saturates() {
    let mut network = Network::new(2);
    network.init_at(block(16, "0xbig", "0x0", vec![]), 1).unwrap();
    assert_eq!(network.state().unwrap().totalWork, u64::MAX);
    let zeroes = "0x0000000000000000";
    network.submit_at(block(16, zeroes, "0xbig", vec![]), 2).unwrap();
    assert_eq!(network.forks()[0].total_work, u64::MAX);
    assert_eq!(network.forks()[0].height, 2);
    network.init_at(block(70, "0xother", "0x0", vec![]), 0).unwrap();
    assert_eq!(network.state().unwrap().hash, "0xother");
    check_invariants(&network);
}

#[test]
fn cache_keeps_the_last_tips_of_the_main_chain() {
    let mut network = chain_of_three();
    assert_eq!(network.recent().queue(), strings(&["0xa1", "0xa2"]));
    assert!(network.recent().get(&"0xg".to_string()).is_none());
    let entry = network.recent().get(&"0xa1".to_string()).unwrap();
    assert_eq!(entry.height, 2);
    assert_eq!(entry.created_at, 200);
    assert_eq!(entry.total_work, 2);
    assert_eq!(entry.block.hash, "0xa1");
    assert_eq!(entry.outputs, vec![o(2, 5)]);
    assert_eq!(entry.outputs_set.to_vec(), vec![o(2, 5)]);
    network.submit_at(block(0, "0xa3", "0xa2", vec![]), 400).unwrap();
    assert_eq!(network.recent().queue(), strings(&["0xa2", "0xa3"]));
    assert!(network.recent().get(&"0xa1".to_string()).is_none());
    let mut keys = network.recent().keys();
    keys.sort();
    assert_eq!(keys, strings(&["0xa2", "0xa3"]));
    check_invariants(&network);
}

#[test]
fn cache_of_one_keeps_only_the_tip() {
    let mut network = Network::new(1);
    network.init_at(block(0, "0xg", "0x0", vec![]), 1).unwrap();
    network.submit_at(block(0, "0xa", "0xg", vec![]), 2).unwrap();
    assert_eq!(network.recent().queue(), strings(&["0xa"]));
    assert_eq!(network.recent().keys(), strings(&["0xa"]));
    check_invariants(&network);
}

#[test]
fn fork_off_a_cached_block_uses_the_snapshot() {
    let mut network = chain_of_three();
    let spend = tx(vec![o(2, 5)], vec![o(8, 5)]);
    assert_eq!(network.submit_at(block(0, "0xb2", "0xa1", vec![spend]), 400), Ok(()));
    assert_eq!(network.forks().len(), 2);
    let fork = &network.forks()[1];
    assert_eq!(fork.hash, "0xb2");
    assert_eq!(fork.height, 3);
    assert_eq!(fork.total_work, 3);
    assert_eq!(fork.created_at, 400);
    let hashes: Vec<&str> = fork.chain.blocks().iter().map(|b| b.0.hash.as_str()).collect();
    assert_eq!(hashes, vec!["0xg", "0xa1", "0xb2"]);
    assert_eq!(fork.chain.blocks_set().to_vec(), strings(&["0xg", "0xa1", "0xb2"]));
    assert_eq!(fork.chain.outputs(), &vec![o(8, 5)]);
    assert_eq!(network.state().unwrap().hash, "0xa2");
    assert_eq!(network.forks()[0].hash, "0xa2");
    check_invariants(&network);
}

#[test]
fn fork_off_a_cached_block_checks_against_the_snapshot() {
    let mut network = chain_of_three();
    let spends_later_output = tx(vec![o(3, 5)], vec![o(8, 5)]);
    assert_eq!(
        network.submit_at(block(0, "0xb2", "0xa1", vec![spends_later_output]), 400),
        Err(LedgerError::InvalidTransaction)
    );
    assert_eq!(network.forks().len(), 1);
}

#[test]
fn fork_off_an_old_block_replays_the_main_chain() {
    let mut network = chain_of_three();
    assert!(network.recent().get(&"0xg".to_string()).is_none());
    let spend = tx(vec![o(1, 5)], vec![o(8, 2), o(9, 3)]);
    assert_eq!(network.submit_at(block(0, "0xb1", "0xg", vec![spend]), 400), Ok(()));
    let fork = &network.forks()[1];
    assert_eq!(fork.hash, "0xb1");
    assert_eq!(fork.height, 2);
    assert_eq!(fork.total_work, 2);
    assert_eq!(sorted(fork.chain.outputs().clone()), vec![o(8, 2), o(9, 3)]);
    assert_eq!(fork.chain.blocks_set().to_vec(), strings(&["0xg", "0xb1"]));
    check_invariants(&network);
}

#[test]
fn a_fork_that_overtakes_becomes_the_main_chain() {
    let mut network = chain_of_three();
    network.submit_at(block(0, "0xb1", "0xg", vec![]), 400).unwrap();
    assert_eq!(network.state().unwrap().hash, "0xa2");
    network.submit_at(block(1, "0x0b2", "0xb1", vec![]), 500).unwrap();
    let state = network.state().unwrap();
    assert_eq!(state.hash, "0x0b2");
    assert_eq!(state.height, 3);
    assert_eq!(state.totalWork, 18);
    assert_eq!(state.outputs, vec![o(1, 5)]);
    assert_eq!(network.blocks_set().to_vec(), strings(&["0xg", "0xb1", "0x0b2"]));
    assert_eq!(network.recent().queue(), strings(&["0xa2", "0x0b2"]));
    assert!(network.recent().get(&"0xa2".to_string()).is_some());
    assert_eq!(network.submit_at(block(0, "0xa3", "0xa2", vec![]), 600), Ok(()));
    assert_eq!(network.forks().len(), 2);
    check_invariants(&network);
}

#[test]
fn compute_chain_at_block_stops_after_the_block() {
    let network = chain_of_three();
    let (chain, work) = network.compute_chain_at_block("0xa1".to_string());
    assert_eq!(work, 2);
    assert_eq!(chain.blocks().len(), 2);
    assert_eq!(chain.blocks()[1].0.hash, "0xa1");
    assert_eq!(chain.blocks()[1].1, 200);
    assert_eq!(chain.outputs(), &vec![o(2, 5)]);
    assert_eq!(chain.blocks_set().to_vec(), strings(&["0xg", "0xa1"]));
    let (first, first_work) = network.compute_chain_at_block("0xg".to_string());
    assert_eq!(first_work, 1);
    assert_eq!(first.blocks().len(), 1);
    assert_eq!(first.outputs(), &vec![o(1, 5)]);
}

#[test]
fn compute_chain_at_unknown_block_takes_the_whole_chain() {
    let network = chain_of_three();
    let (chain, work) = network.compute_chain_at_block("0xnone".to_string());
    assert_eq!(work, 3);
    assert_eq!(chain.blocks().len(), 3);
    assert_eq!(chain.outputs(), &vec![o(3, 5)]);
    let empty = Network::new(2);
    let (nothing, no_work) = empty.compute_chain_at_block("0xg".to_string());
    assert_eq!(no_work, 0);
    assert!(nothing.blocks().is_empty());
}

#[test]
fn get_main_chain_gives_the_winner() {
    let mut network = chain_of_three();
    network.submit_at(block(0, "0xb1", "0xg", vec![]), 400).unwrap();
    let (blocks, set, state) = network.get_main_chain();
    assert_eq!(blocks.len(), 3);
    assert_eq!(blocks[2].0.hash, "0xa2");
    assert_eq!(set.to_vec(), strings(&["0xg", "0xa1", "0xa2"]));
    assert_eq!(state, network.state().unwrap());
    assert_eq!(state.height, 3);
}

#[test]
fn print_details_gathers_everything() {
    let mut network = chain_of_three();
    network.submit_at(block(0, "0xb1", "0xg", vec![]), 400).unwrap();
    let details = network.print_details();
    assert_eq!(details.state, network.state());
    assert_eq!(details.heads, network.heads());
    assert_eq!(details.recent_blocks_queue, strings(&["0xa1", "0xa2"]));
    let mut keys = details.recent_blocks.clone();
    keys.sort();
    assert_eq!(keys, strings(&["0xa1", "0xa2"]));
    assert_eq!(details.forks, strings(&["0xa2", "0xb1"]));
    assert_eq!(details.blocks, strings(&["0xg", "0xa1", "0xa2"]));
    assert_eq!(details.blocks_set, strings(&["0xg", "0xa1", "0xa2"]));
    let empty = Network::new(2).print_details();
    assert_eq!(empty.state, Err(LedgerError::MustInitializeFirst));
    assert_eq!(empty.heads, Err(LedgerError::MustInitializeFirst));
    assert!(empty.forks.is_empty());
}

#[test]
fn heads_follow_the_forks() {
    let mut network = chain_of_three();
    network.submit_at(block(0, "0xb1", "0xg", vec![]), 400).unwrap();
    network.init_at(block(2, "0xr", "0x0", vec![]), 500).unwrap();
    assert_eq!(
        network.heads(),
        Ok(vec![
            Head { height: 3, totalWork: 3, hash: "0xa2".to_string() },
            Head { height: 2, totalWork: 2, hash: "0xb1".to_string() },
            Head { height: 1, totalWork: 256, hash: "0xr".to_string() },
        ])
    );
    check_invariants(&network);
}

#[test]
fn clock_reads_milliseconds() {
    let first = now();
    let second = now();
    assert!(first > 1_600_000_000_000);
    assert!(second >= first);
    assert!(second - first < 60_000);
}

#[test]
fn init_and_submit_stamp_with_the_clock() {
    let before = now();
    let mut network = Network::new(2);
    network.init(block(0, "0xg", "0x0", vec![])).unwrap();
    network.submit(block(0, "0xa", "0xg", vec![])).unwrap();
    let after = now();
    let fork = &network.forks()[0];
    assert!(before <= fork.created_at && fork.created_at <= after);
    assert!(before <= fork.chain.blocks()[0].1 && fork.chain.blocks()[0].1 <= fork.created_at);
}

#[test]
fn fork_off_the_cache_after_a_reorganisation_keeps_uncached_hashes() {
    let mut network = Network::new(3);
    network.init_at(block(0, "0xg", "0x0", vec![]), 1).unwrap();
    network.submit_at(block(1, "0x0a1", "0xg", vec![]), 2).unwrap();
    network.submit_at(block(0, "0xb1", "0xg", vec![]), 3).unwrap();
    assert_eq!(network.forks()[1].chain.blocks_set().to_vec(), strings(&["0xg", "0xb1"]));
    network.submit_at(block(1, "0x0b2", "0xb1", vec![]), 4).unwrap();
    assert_eq!(network.state().unwrap().hash, "0x0b2");
    assert_eq!(network.recent().queue(), strings(&["0xg", "0x0a1", "0x0b2"]));
    network.submit_at(block(0, "0xc", "0xg", vec![]), 5).unwrap();
    let fork = network.forks().iter().find(|f| f.hash == "0xc").unwrap();
    assert_eq!(fork.height, 2);
    assert_eq!(fork.chain.blocks().len(), 2);
    assert_eq!(fork.chain.blocks_set().to_vec(), strings(&["0xg", "0xb1", "0xc"]));
}

#[test]
fn a_hash_recorded_twice_outlives_its_entry_in_the_queue() {
    let mut network = Network::new(3);
    network.init_at(block(0, "0xa", "0x0", vec![]), 1).unwrap();
    network.init_at(block(1, "0xb", "0x0", vec![]), 2).unwrap();
    network.submit_at(block(0, "0xc", "0xa", vec![]), 3).unwrap();
    assert_eq!(network.recent().queue(), strings(&["0xa", "0xb"]));
    network.init_at(block(2, "0xa", "0x0", vec![]), 4).unwrap();
    assert_eq!(network.recent().queue(), strings(&["0xa", "0xb", "0xa"]));
    assert_eq!(network.recent().get(&"0xa".to_string()).unwrap().total_work, 256);
    network.init_at(block(3, "0xd", "0x0", vec![]), 5).unwrap();
    assert_eq!(network.recent().queue(), strings(&["0xb", "0xa", "0xd"]));
    assert!(network.recent().get(&"0xa".to_string()).is_none());
    assert!(network.recent().queue().len() <= network.recent_count_limit());
    network.submit_at(block(3, "0x000e", "0xd", vec![]), 6).unwrap();
    assert_eq!(network.recent().queue(), strings(&["0xa", "0xd", "0x000e"]));
}

#[test]
fn a_reused_hash_resolves_to_its_stale_snapshot() {
    let mut network = Network::new(3);
    network.init_at(block(0, "0x0g", "0x0", vec![tx(vec![], vec![o(1, 5)])]), 1).unwrap();
    network.submit_at(block(0, "0x0x", "0x0g", vec![tx(vec![o(1, 5)], vec![o(2, 5)])]), 2).unwrap();
    network.init_at(block(1, "0x0h", "0x0", vec![]), 3).unwrap();
    network.submit_at(block(0, "0x0w", "0x0x", vec![]), 4).unwrap();
    network.init_at(block(0, "0x0k", "0x0", vec![]), 5).unwrap();
    network.submit_at(block(0, "0x0x", "0x0k", vec![]), 6).unwrap();
    network.submit_at(block(2, "0x00m", "0x0x", vec![]), 7).unwrap();
    assert_eq!(network.state().unwrap().hash, "0x00m");
    assert_eq!(network.state().unwrap().outputs, vec![]);
    assert_eq!(network.recent().queue(), strings(&["0x0x", "0x0h", "0x00m"]));
    assert_eq!(network.recent().get(&"0x0x".to_string()).unwrap().outputs, vec![o(2, 5)]);
    network.submit_at(block(0, "0x0n", "0x0x", vec![]), 8).unwrap();
    let fork = network.forks().iter().find(|f| f.hash == "0x0n").unwrap();
    let hashes: Vec<&str> = fork.chain.blocks().iter().map(|b| b.0.hash.as_str()).collect();
    assert_eq!(hashes, vec!["0x0k", "0x0x", "0x0n"]);
    assert_eq!(fork.chain.outputs(), &vec![o(2, 5)]);
    assert_eq!(fork.total_work, 3);
}

#[test]
fn a_cache_entry_above_the_main_chain_is_not_used() {
    let mut network = Network::new(4);
    network.init_at(block(0, "0x0g", "0x0", vec![tx(vec![], vec![o(1, 5)])]), 1).unwrap();
    network.submit_at(block(0, "0x0a", "0x0g", vec![]), 2).unwrap();
    network.submit_at(block(0, "0x0x", "0x0a", vec![tx(vec![o(1, 5)], vec![o(2, 5)])]), 3).unwrap();
    assert_eq!(network.recent().get(&"0x0x".to_string()).unwrap().height, 3);
    network.init_at(block(1, "0x0h", "0x0", vec![tx(vec![], vec![o(7, 7)])]), 4).unwrap();
    network.submit_at(block(0, "0x0w", "0x0x", vec![]), 5).unwrap();
    network.init_at(block(0, "0x0x", "0x0", vec![tx(vec![], vec![o(9, 9)])]), 6).unwrap();
    network.submit_at(block(2, "0x00m", "0x0x", vec![]), 7).unwrap();
    assert_eq!(network.state().unwrap().hash, "0x00m");
    assert_eq!(network.blocks().len(), 2);
    assert_eq!(network.recent().get(&"0x0x".to_string()).unwrap().height, 3);
    network.submit_at(block(0, "0x0n", "0x0x", vec![]), 8).unwrap();
    let fork = network.forks().iter().find(|f| f.hash == "0x0n").unwrap();
    assert_eq!(fork.height, 2);
    assert_eq!(fork.total_work, 2);
    assert_eq!(fork.chain.outputs(), &vec![o(9, 9)]);
    check_invariants(&network);
}

#[test]
fn holds_tells_the_hashes_of_all_forks() {
    let mut network = chain_of_three();
    network.submit_at(block(0, "0xb1", "0xg", vec![]), 400).unwrap();
    network.submit_at(block(0, "0xb2", "0xb1", vec![]), 500).unwrap();
    assert!(network.holds(&"0xg".to_string()));
    assert!(network.holds(&"0xa1".to_string()));
    assert!(network.holds(&"0xb1".to_string()));
    assert!(network.holds(&"0xb2".to_string()));
    assert!(!network.holds(&"0xc".to_string()));
    assert!(!Network::new(2).holds(&"0xg".to_string()));
    assert_eq!(network.state().unwrap().hash, "0xa2");
    assert_eq!(network.init_at(block(0, "0xb1", "0x0", vec![]), 600), Ok(()));
}
