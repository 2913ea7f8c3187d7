use mycoinlib::block::check_leading_zeroes;
use mycoinlib::digest::hash_bytes;
use mycoinlib::encoding::{push_decimal, push_output, push_outputs, push_transaction};
use mycoinlib::{Block, Hashable, LedgerError, Output, Transaction};

fn genesis() -> Block {
    Block::new(
        0,
        "0x4f9e576f4fc28a7ca38966e7d956b6c715718d4a46ecfaa1328c29bee1797826".to_string(),
        0,
        "0x0".to_string(),
        vec![],
    )
}

fn sample_transactions() -> Vec<Transaction> {
    vec![
        Transaction {
            inputs: vec![Output { id: 1, amount: 5 }],
            outputs: vec![Output { id: 2, amount: 3 }, Output { id: 3, amount: 2 }],
        },
        Transaction { inputs: vec![], outputs: vec![] },
    ]
}

#[test]
fn hash_of_empty_input_is_the_known_digest() {
    assert_eq!(
        hash_bytes(b""),
        "0xe3b0c44298fc1c149afbf4c8996fb92427ae41e4649b934ca495991b7852b855"
    );
}

#[test]
fn hash_is_prefixed_lowercase_hex_sha256() {
    let hash = hash_bytes(b"crypto-hash");
    assert_eq!(hash, "0xfd1afb6022cd4d47c890961c533928eacfe8219f1b2524f7fb2a61847ddf8c27");
    assert_eq!(hash.len(), 66);
}

#[test]
fn decimal_has_no_padding() {
    let mut text = String::new();
    push_decimal(&mut text, 0);
    text.push(' ');
    push_decimal(&mut text, 7);
    text.push(' ');
    push_decimal(&mut text, 10);
    text.push(' ');
    push_decimal(&mut text, 1234567890);
    text.push(' ');
    push_decimal(&mut text, u64::MAX);
    assert_eq!(text, "0 7 10 1234567890 18446744073709551615");
}

#[test]
fn output_text_puts_amount_before_id() {
    let mut text = String::from(">");
    push_output(&mut text, &Output { id: 9, amount: 40 });
    assert_eq!(text, ">{\"amount\":40,\"id\":9}");
}

#[test]
fn outputs_are_separated_by_commas() {
    let mut text = String::new();
    push_outputs(&mut text, &vec![]);
    assert_eq!(text, "");
    push_outputs(&mut text, &vec![Output { id: 1, amount: 2 }]);
    assert_eq!(text, "{\"amount\":2,\"id\":1}");
    let mut two = String::new();
    push_outputs(&mut two, &vec![Output { id: 1, amount: 2 }, Output { id: 3, amount: 4 }]);
    assert_eq!(two, "{\"amount\":2,\"id\":1},{\"amount\":4,\"id\":3}");
}

#[test]
fn transaction_text_puts_inputs_before_outputs() {
    let mut text = String::new();
    push_transaction(&mut text, &sample_transactions()[0]);
    assert_eq!(
        text,
        "{\"inputs\":[{\"amount\":5,\"id\":1}],\"outputs\":[{\"amount\":3,\"id\":2},{\"amount\":2,\"id\":3}]}"
    );
}

#[test]
fn canonical_encoding_of_genesis() {
    assert_eq!(genesis().bytes(), b"[\"0x0\",[],0,0]".to_vec());
}

#[test]
fn canonical_encoding_with_transactions() {
    let block = Block::new(3, String::new(), 42, "0xabc".to_string(), sample_transactions());
    let expected = "[\"0xabc\",[{\"inputs\":[{\"amount\":5,\"id\":1}],\"outputs\":[{\"amount\":3,\"id\":2},{\"amount\":2,\"id\":3}]},{\"inputs\":[],\"outputs\":[]}],3,42]";
    assert_eq!(block.bytes(), expected.as_bytes().to_vec());
    assert_eq!(
        block.hash(),
        "0x551d0932efef5d3ed35a82f7262ba3126035d94ef5745174b580622980a3dcb6"
    );
}

#[test]
fn canonical_encoding_of_largest_numbers() {
    let block = Block::new(
        u32::MAX,
        String::new(),
        u64::MAX,
        "0x0".to_string(),
        vec![Transaction {
            inputs: vec![],
            outputs: vec![Output { id: u64::MAX, amount: u64::MAX }],
        }],
    );
    let expected = "[\"0x0\",[{\"inputs\":[],\"outputs\":[{\"amount\":18446744073709551615,\"id\":18446744073709551615}]}],4294967295,18446744073709551615]";
    assert_eq!(block.bytes(), expected.as_bytes().to_vec());
}

#[test]
fn canonical_encoding_keeps_non_ascii_predecessor() {
    let block = Block::new(0, String::new(), 1, "é".to_string(), vec![]);
    assert_eq!(block.bytes(), "[\"é\",[],0,1]".as_bytes().to_vec());
}

#[test]
fn hash_ignores_the_hash_field() {
    let mut block = genesis();
    let before = block.hash();
    block.hash = "0xffff".to_string();
    assert_eq!(block.hash(), before);
    assert_eq!(before, "0x4f9e576f4fc28a7ca38966e7d956b6c715718d4a46ecfaa1328c29bee1797826");
}

#[test]
fn genesis_validates() {
    assert_eq!(genesis().validate(), Ok(()));
}

#[test]
fn validation_round_trip() {
    let mut block = genesis();
    assert_eq!(block.hash(), block.hash);
    assert!(block.validate().is_ok());
    block.nonce = 1;
    assert_ne!(block.hash(), block.hash);
    assert!(block.validate().is_err());
}

#[test]
fn wrong_hash_is_invalid_hash() {
    let mut block = genesis();
    block.hash = "0x00".to_string();
    assert_eq!(block.validate(), Err(LedgerError::InvalidHash));
}

#[test]
fn invalid_hash_is_reported_before_difficulty() {
    let mut block = genesis();
    block.difficulty = 65;
    assert_eq!(block.validate(), Err(LedgerError::InvalidHash));
}

#[test]
fn difficulty_above_64_is_rejected() {
    let mut block = Block::new(65, String::new(), 0, "0x0".to_string(), vec![]);
    block.hash = block.hash();
    assert_eq!(block.validate(), Err(LedgerError::DifficultyTooHigh));
}

#[test]
fn difficulty_of_64_is_not_too_high() {
    let mut block = Block::new(64, String::new(), 0, "0x0".to_string(), vec![]);
    block.hash = block.hash();
    assert_eq!(block.validate(), Err(LedgerError::LeadingZeroesMismatch));
}

#[test]
fn missing_leading_zeroes_are_rejected() {
    let mut block = Block::new(1, String::new(), 0, "0x0".to_string(), vec![]);
    block.hash = block.hash();
    assert!(!block.hash.starts_with("0x0"));
    assert_eq!(block.validate(), Err(LedgerError::LeadingZeroesMismatch));
}

#[test]
fn mined_block_validates() {
    let block = Block::new(
        1,
        "0x010b8cf38dc317dc3b6450c0321c0a35a8b32a31a5ad07ca25fb391894d2d5c2".to_string(),
        3,
        "0x0".to_string(),
        vec![],
    );
    assert_eq!(block.validate(), Ok(()));
    let deeper = Block::new(
        2,
        "0x0038f800db4331508ea7d09aa9d3be91f2be7dd0655fee340ea363dffeb19bd1".to_string(),
        75,
        "0x0".to_string(),
        vec![],
    );
    assert_eq!(deeper.validate(), Ok(()));
}

#[test]
fn validate_against_checks_in_order() {
    let block = Block::new(65, "0x0abc".to_string(), 0, "0x0".to_string(), vec![]);
    assert_eq!(block.validate_against(&"0x0abd".to_string()), Err(LedgerError::InvalidHash));
    assert_eq!(block.validate_against(&"0x0abc".to_string()), Err(LedgerError::DifficultyTooHigh));
    let low = Block::new(2, "0x0abc".to_string(), 0, "0x0".to_string(), vec![]);
    assert_eq!(low.validate_against(&"0x0abc".to_string()), Err(LedgerError::LeadingZeroesMismatch));
    let met = Block::new(1, "0x0abc".to_string(), 0, "0x0".to_string(), vec![]);
    assert_eq!(met.validate_against(&"0x0abc".to_string()), Ok(()));
}

#[test]
fn leading_zeroes_are_counted_after_the_prefix() {
    assert!(check_leading_zeroes("0x", 0));
    assert!(check_leading_zeroes("0xabc", 0));
    assert!(check_leading_zeroes("0x0bc", 1));
    assert!(!check_leading_zeroes("0x0bc", 2));
    assert!(check_leading_zeroes("0x00", 2));
    assert!(!check_leading_zeroes("0x00", 3));
    assert!(!check_leading_zeroes("0x", 1));
    assert!(!check_leading_zeroes("0", 0));
    assert!(!check_leading_zeroes("", 0));
    assert!(!check_leading_zeroes("1x00", 2));
    assert!(!check_leading_zeroes("0y00", 2));
    assert!(!check_leading_zeroes("0x00", u32::MAX));
    assert!(!check_leading_zeroes("0xé0", 1));
}

#[test]
fn error_messages_are_literal() {
    assert_eq!(LedgerError::InvalidHash.message(), "invalid hash");
    assert_eq!(LedgerError::DifficultyTooHigh.message(), "maximum value of difficulty is 64");
    assert_eq!(
        LedgerError::LeadingZeroesMismatch.message(),
        "leading zeroes in block hash did not match difficulty"
    );
    assert_eq!(LedgerError::MustInitializeFirst.message(), "must initialize first");
    assert_eq!(LedgerError::NoPredecessorFound.message(), "no predecessor found");
    assert_eq!(LedgerError::DuplicateHash.message(), "duplicate hash");
    assert_eq!(LedgerError::DifficultyDecreased.message(), "difficulty must not decrease");
    assert_eq!(LedgerError::InvalidTransaction.message(), "invalid transaction");
}

#[test]
fn block_new_keeps_its_parts() {
    let block = Block::new(3, "h".to_string(), 9, "p".to_string(), sample_transactions());
    assert_eq!(block.difficulty, 3);
    assert_eq!(block.hash, "h");
    assert_eq!(block.nonce, 9);
    assert_eq!(block.predecessor, "p");
    assert_eq!(block.transactions.len(), 2);
    assert_eq!(block.transactions[0].outputs[1], Output { id: 3, amount: 2 });
    let copy = block.clone();
    assert_eq!(copy.bytes(), block.bytes());
    assert_eq!(copy.hash, block.hash);
}
