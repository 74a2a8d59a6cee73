use sha2::{Digest, Sha256};
use ubachain::block::{Block, BlockRecord};

use ubachain::states::State;
use ubachain::tx::Tx;

fn sample_block(value: u64, data: &str) -> Block {
    Block::new(
        ubachain::hash::Hash::zero(),
        vec![Tx::new("alice".into(), "bob".into(), value, data.into())],
        1,
        42,
    )
}

#[test]
fn encode_record_is_the_expected_json() {
    let block = sample_block(300, "");
    let hash = block.hash();
    let record = BlockRecord {
        blockhash: hash.to_hex(),
        block,
    };
    let line = ubachain::codec::encode_record(&record);
    let expected = format!(
        "{{\"hash\":\"{}\",\"block\":{{\"header\":{{\"parent\":\"{}\",\"height\":1,\"time\":42}},\"payload\":[{{\"from\":\"alice\",\"to\":\"bob\",\"value\":300,\"data\":\"\"}}]}}}}",
        record.blockhash,
        "0".repeat(64),
    );
    assert_eq!(line, expected);
}

#[test]
fn block_hash_is_sha256_of_canonical_serialization() {
    let block = sample_block(300, "");
    let json = ubachain::codec::encode_block(&block);
    let expected: [u8; 32] = Sha256::digest(json.as_bytes()).into();
    assert_eq!(block.hash().0, expected);
    assert_ne!(block.hash().0, [0u8; 32]);
}

#[test]
fn identical_blocks_hash_identically_and_differ_otherwise() {
    let a = sample_block(300, "");
    let b = sample_block(300, "");
    let c = sample_block(301, "");
    assert_eq!(a.hash().0, b.hash().0);
    assert_ne!(a.hash().0, c.hash().0);
}

#[test]
fn record_round_trips_through_text() {
    let block = sample_block(7, "reward");
    let hash = block.hash();
    let record = BlockRecord {
        blockhash: hash.to_hex(),
        block,
    };
    let line = ubachain::codec::encode_record(&record);
    let back = ubachain::codec::parse_record(&line).expect("canonical line parses");
    assert_eq!(back.blockhash, record.blockhash);
    assert_eq!(back.block.header.parent.0, record.block.header.parent.0);
    assert_eq!(back.block.header.height, record.block.header.height);
    assert_eq!(back.block.header.time, record.block.header.time);
    assert_eq!(back.block.txs.len(), 1);
    assert_eq!(back.block.txs[0].from.0, "alice");
    assert_eq!(back.block.txs[0].to.0, "bob");
    assert_eq!(back.block.txs[0].value, 7);
    assert_eq!(back.block.txs[0].data, "reward");
}

#[test]
fn escaped_characters_round_trip() {
    let tricky = "a\"b\\c\nd";
    let block = Block::new(
        ubachain::hash::Hash::zero(),
        vec![Tx::new(tricky.into(), "x".into(), 1, tricky.into())],
        1,
        0,
    );
    let record = BlockRecord {
        blockhash: block.hash().to_hex(),
        block,
    };
    let line = ubachain::codec::encode_record(&record);
    assert!(!line.contains('\n'));
    let back = ubachain::codec::parse_record(&line).unwrap();
    assert_eq!(back.block.txs[0].from.0, tricky);
    assert_eq!(back.block.txs[0].data, tricky);
}

#[test]
fn canonical_line_is_valid_json_for_other_readers() {
    let block = sample_block(300, "x");
    let record = BlockRecord {
        blockhash: block.hash().to_hex(),
        block,
    };
    let line = ubachain::codec::encode_record(&record);
    let value: serde_json::Value = serde_json::from_str(&line).expect("line is valid JSON");
    assert_eq!(value["hash"].as_str().unwrap(), record.blockhash);
    assert_eq!(value["block"]["header"]["height"].as_u64().unwrap(), 1);
    assert_eq!(value["block"]["header"]["time"].as_u64().unwrap(), 42);
    assert_eq!(
        value["block"]["payload"][0]["from"].as_str().unwrap(),
        "alice"
    );
    assert_eq!(
        value["block"]["payload"][0]["value"].as_u64().unwrap(),
        300
    );
}

#[test]
fn parse_rejects_non_canonical_numbers() {
    let block = sample_block(300, "");
    let record = BlockRecord {
        blockhash: block.hash().to_hex(),
        block,
    };
    let line = ubachain::codec::encode_record(&record);
    let padded = line.replace("\"value\":300", "\"value\":0300");
    assert!(ubachain::codec::parse_record(&padded).is_none());
    let trailing = format!("{} ", line);
    assert!(ubachain::codec::parse_record(&trailing).is_none());
}

#[test]
fn to_hex_matches_reference_encoder() {
    let mut bytes = [0u8; 32];
    for (i, b) in bytes.iter_mut().enumerate() {
        *b = (i * 8 + 3) as u8;
    }
    let h = ubachain::hash::Hash(bytes);
    assert_eq!(h.to_hex(), hex::encode(bytes));
}

#[test]
fn hex_to_hash_round_trips() {
    let mut bytes = [0u8; 32];
    for (i, b) in bytes.iter_mut().enumerate() {
        *b = (255 - i * 7) as u8;
    }
    let h = ubachain::hash::Hash(bytes);
    let back = State::hex_to_hash(&h.to_hex()).unwrap();
    assert_eq!(back.0, bytes);
}

#[test]
fn hex_to_hash_accepts_uppercase() {
    let upper = "A".repeat(64);
    let h = State::hex_to_hash(&upper).unwrap();
    assert_eq!(h.0, [0xAAu8; 32]);
}

#[test]
fn hex_to_hash_rejects_bad_digit() {
    let err = State::hex_to_hash(&"g".repeat(64)).unwrap_err();
    assert!(matches!(
        err,
        ubachain::states::StateError::HexDecode
    ));
}

#[test]
fn hex_to_hash_rejects_odd_length() {
    let err = State::hex_to_hash(&"a".repeat(63)).unwrap_err();
    assert!(matches!(
        err,
        ubachain::states::StateError::HexDecode
    ));
}

#[test]
fn hex_to_hash_rejects_wrong_length() {
    let err = State::hex_to_hash(&"ab".repeat(8)).unwrap_err();
    match err {
        ubachain::states::StateError::InvalidLength(n) => assert_eq!(n, 8),
        other => panic!("unexpected error {:?}", other),
    }
}

#[test]
fn split_lines_handles_terminators() {
    let lines = ubachain::codec::split_lines("a\nbb\n\nccc");
    let got: Vec<&str> = lines.iter().map(|s| s.as_str()).collect();
    assert_eq!(got, vec!["a", "bb", "", "ccc"]);
    let lines = ubachain::codec::split_lines("a\nbb\n");
    let got: Vec<&str> = lines.iter().map(|s| s.as_str()).collect();
    assert_eq!(got, vec!["a", "bb"]);
    let empty = ubachain::codec::split_lines("");
    assert!(empty.is_empty());
}

#[test]
fn is_reward_matches_exact_tag() {
    assert!(Tx::new("a".into(), "b".into(), 1, "reward".into()).is_reward());
    assert!(!Tx::new("a".into(), "b".into(), 1, "Reward".into()).is_reward());
    assert!(!Tx::new("a".into(), "b".into(), 1, "rewards".into()).is_reward());
    assert!(!Tx::new("a".into(), "b".into(), 1, String::new()).is_reward());
}

#[test]
fn multi_transaction_block_round_trips() {
    let txs = vec![
        Tx::new("alice".into(), "bob".into(), 1, String::new()),
        Tx::new("bob".into(), "carol".into(), 2, "memo".into()),
        Tx::new("carol".into(), "alice".into(), 3, "reward".into()),
    ];
    let block = Block::new(ubachain::hash::Hash::zero(), txs, 4, 99);
    let record = BlockRecord {
        blockhash: block.hash().to_hex(),
        block,
    };
    let line = ubachain::codec::encode_record(&record);
    let back = ubachain::codec::parse_record(&line).unwrap();
    assert_eq!(back.block.txs.len(), 3);
    assert_eq!(back.block.txs[0].value, 1);
    assert_eq!(back.block.txs[1].data, "memo");
    assert_eq!(back.block.txs[2].from.0, "carol");
    let value: serde_json::Value = serde_json::from_str(&line).unwrap();
    assert_eq!(value["block"]["payload"].as_array().unwrap().len(), 3);
}
