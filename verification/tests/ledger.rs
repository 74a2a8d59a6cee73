use ubachain::api::list_balances;

use ubachain::states::{Genesis, GenesisError, State, StateError};
use ubachain::tx::{Account, Tx};

fn fresh_state(names_and_amounts: &[(&str, u64)]) -> State {
    State {
        balances: names_and_amounts
            .iter()
            .map(|(n, v)| (Account(n.to_string()), *v))
            .collect(),
        tx_mempool: Vec::new(),
        latest_blockhash: ubachain::hash::Hash::zero(),
        height: 0,
    }
}

fn balance(state: &State, name: &str) -> u64 {
    state
        .balances
        .iter()
        .find(|(a, _)| a.0 == name)
        .map(|(_, v)| *v)
        .unwrap_or(0)
}

#[test]
fn transfer_moves_value() {
    let mut state = fresh_state(&[("alice", 1000)]);
    state
        .add(Tx::new("alice".into(), "bob".into(), 300, String::new()))
        .unwrap();
    assert_eq!(balance(&state, "alice"), 700);
    assert_eq!(balance(&state, "bob"), 300);
    assert_eq!(state.tx_mempool.len(), 1);
    let (hash, line) = state.persist(42);
    assert_eq!(state.height, 1);
    assert_eq!(state.tx_mempool.len(), 0);
    assert_eq!(state.latest_blockhash.0, hash.0);
    let rec = ubachain::codec::parse_record(&line).expect("persisted line parses");
    assert_eq!(rec.block.header.height, 1);
    assert_eq!(rec.block.header.time, 42);
    assert_eq!(rec.block.header.parent.0, [0u8; 32]);
    assert_eq!(rec.block.txs.len(), 1);
    assert_eq!(rec.blockhash, hash.to_hex());
}

#[test]
fn self_reward_nets_its_value() {
    let mut state = fresh_state(&[("alice", 700)]);
    state
        .add(Tx::new("alice".into(), "alice".into(), 50, "reward".into()))
        .unwrap();
    assert_eq!(balance(&state, "alice"), 750);
}

#[test]
fn reward_double_credits_receiver() {
    let mut state = fresh_state(&[("alice", 100)]);
    state
        .add(Tx::new("alice".into(), "bob".into(), 10, "reward".into()))
        .unwrap();
    assert_eq!(balance(&state, "alice"), 90);
    assert_eq!(balance(&state, "bob"), 20);
}

#[test]
fn insufficient_balance_is_reported_exactly() {
    let mut state = fresh_state(&[("alice", 700), ("bob", 300)]);
    let err = state
        .add(Tx::new("bob".into(), "alice".into(), 9999, String::new()))
        .unwrap_err();
    match err {
        StateError::InsufficientBalance {
            account,
            requested,
            available,
        } => {
            assert_eq!(account, "bob");
            assert_eq!(requested, 9999);
            assert_eq!(available, 300);
        }
        other => panic!("unexpected error {:?}", other),
    }
    assert_eq!(balance(&state, "alice"), 700);
    assert_eq!(balance(&state, "bob"), 300);
    assert_eq!(state.tx_mempool.len(), 0);
}

#[test]
fn failed_reward_keeps_its_credit() {
    let mut state = fresh_state(&[("alice", 100)]);
    let err = state
        .add(Tx::new("bob".into(), "carol".into(), 5, "reward".into()))
        .unwrap_err();
    assert!(matches!(err, StateError::InsufficientBalance { .. }));
    // the reward credit to carol stays even though bob could not pay
    assert_eq!(balance(&state, "carol"), 5);
    assert_eq!(state.tx_mempool.len(), 0);
}

#[test]
fn zero_value_transfer_succeeds_from_unknown_account() {
    let mut state = fresh_state(&[]);
    state
        .add(Tx::new("ghostly".into(), "bob".into(), 0, String::new()))
        .unwrap();
    assert_eq!(balance(&state, "bob"), 0);
    assert!(state.balances.iter().any(|(a, _)| a.0 == "bob"));
}

#[test]
fn overflow_credit_is_rejected() {
    let mut state = fresh_state(&[("alice", 10), ("bob", u64::MAX)]);
    let err = state
        .add(Tx::new("alice".into(), "bob".into(), 1, String::new()))
        .unwrap_err();
    match err {
        StateError::BalanceOverflow { account } => assert_eq!(account, "bob"),
        other => panic!("unexpected error {:?}", other),
    }
    assert_eq!(balance(&state, "alice"), 10);
    assert_eq!(balance(&state, "bob"), u64::MAX);
}

#[test]
fn conservation_over_non_reward_transactions() {
    let mut state = fresh_state(&[("alice", 600), ("bob", 400)]);
    let before: u128 = state.balances.iter().map(|(_, v)| *v as u128).sum();
    state
        .add(Tx::new("alice".into(), "bob".into(), 123, String::new()))
        .unwrap();
    state
        .add(Tx::new("bob".into(), "carol".into(), 77, String::new()))
        .unwrap();
    state
        .add(Tx::new("carol".into(), "alice".into(), 7, String::new()))
        .unwrap();
    let after: u128 = state.balances.iter().map(|(_, v)| *v as u128).sum();
    assert_eq!(before, after);
}

#[test]
fn reward_raises_total_by_its_value() {
    let mut state = fresh_state(&[("alice", 600)]);
    state
        .add(Tx::new("alice".into(), "bob".into(), 10, "reward".into()))
        .unwrap();
    let after: u128 = state.balances.iter().map(|(_, v)| *v as u128).sum();
    assert_eq!(after, 610);
}

#[test]
fn empty_persist_still_produces_a_block() {
    let mut state = fresh_state(&[("alice", 1000)]);
    let (h1, line1) = state.persist(100);
    assert_eq!(state.height, 1);
    let rec1 = ubachain::codec::parse_record(&line1).unwrap();
    assert_eq!(rec1.block.txs.len(), 0);
    assert_eq!(rec1.block.header.parent.0, [0u8; 32]);
    assert_eq!(rec1.block.header.height, 1);
    let (_h2, line2) = state.persist(101);
    assert_eq!(state.height, 2);
    let rec2 = ubachain::codec::parse_record(&line2).unwrap();
    assert_eq!(rec2.block.header.parent.0, h1.0);
    assert_eq!(rec2.block.header.height, 2);
}

#[test]
fn hash_chain_links_consecutive_records() {
    let mut state = fresh_state(&[("alice", 1000)]);
    let mut lines = Vec::new();
    for i in 0..4u64 {
        state
            .add(Tx::new("alice".into(), "bob".into(), 10 + i, String::new()))
            .unwrap();
        let (_h, line) = state.persist(1000 + i);
        lines.push(line);
    }
    let recs: Vec<_> = lines
        .iter()
        .map(|l| ubachain::codec::parse_record(l).unwrap())
        .collect();
    for w in recs.windows(2) {
        let parent_hex = w[1].block.header.parent.to_hex();
        assert_eq!(parent_hex, w[0].blockhash);
    }
}

#[test]
fn replay_reproduces_memory_state() {
    let genesis = Genesis::new(
        "{\"genesis_time\":\"2024-01-01\",\"chain_id\":\"test-chain\",\"balances\":{\"alice\":1000}}",
    )
    .unwrap();
    let mut state = State::new_from_disk(&genesis, "").unwrap();
    let mut log = String::new();
    state
        .add(Tx::new("alice".into(), "bob".into(), 300, String::new()))
        .unwrap();
    let (_h1, line1) = state.persist(11);
    log.push_str(&line1);
    log.push('\n');
    state
        .add(Tx::new("bob".into(), "carol".into(), 50, String::new()))
        .unwrap();
    state
        .add(Tx::new("alice".into(), "alice".into(), 5, "reward".into()))
        .unwrap();
    let (_h2, line2) = state.persist(12);
    log.push_str(&line2);
    log.push('\n');
    let reloaded = State::new_from_disk(&genesis, &log).unwrap();
    assert_eq!(reloaded.height, state.height);
    assert_eq!(reloaded.latest_blockhash.0, state.latest_blockhash.0);
    let mut live: Vec<(String, u64)> = state
        .balances
        .iter()
        .map(|(a, v)| (a.0.clone(), *v))
        .collect();
    let mut replayed: Vec<(String, u64)> = reloaded
        .balances
        .iter()
        .map(|(a, v)| (a.0.clone(), *v))
        .collect();
    live.sort();
    replayed.sort();
    assert_eq!(live, replayed);
}

#[test]
fn load_rejects_corrupt_line() {
    let genesis =
        Genesis::new("{\"genesis_time\":\"t\",\"chain_id\":\"c\",\"balances\":{}}").unwrap();
    let err = State::new_from_disk(&genesis, "not a record\n").unwrap_err();
    assert!(matches!(err, StateError::MalformedRecord));
}

#[test]
fn load_rejects_overspending_history() {
    let genesis =
        Genesis::new("{\"genesis_time\":\"t\",\"chain_id\":\"c\",\"balances\":{\"alice\":10}}")
            .unwrap();
    // build a valid line from a richer run, then replay it against a poorer genesis
    let mut rich = fresh_state(&[("alice", 1000)]);
    rich.add(Tx::new("alice".into(), "bob".into(), 500, String::new()))
        .unwrap();
    let (_h, line) = rich.persist(5);
    let mut log = line;
    log.push('\n');
    let err = State::new_from_disk(&genesis, &log).unwrap_err();
    assert!(matches!(err, StateError::InsufficientBalance { .. }));
}

#[test]
fn genesis_parses_with_whitespace() {
    let text = "{\n  \"genesis_time\": \"2024-03-01T00:00:00Z\",\n  \"chain_id\": \"main\",\n  \"balances\": {\n    \"alice\": 1000,\n    \"bob\": 5\n  }\n}\n";
    let g = Genesis::new(text).unwrap();
    assert_eq!(g.genesis_time, "2024-03-01T00:00:00Z");
    assert_eq!(g.chain_id, "main");
    assert_eq!(g.balances.len(), 2);
    assert_eq!(g.balances[0].0 .0, "alice");
    assert_eq!(g.balances[0].1, 1000);
    assert_eq!(g.balances[1].0 .0, "bob");
    assert_eq!(g.balances[1].1, 5);
}

#[test]
fn genesis_rejects_duplicate_keys() {
    let err = Genesis::new(
        "{\"genesis_time\":\"t\",\"chain_id\":\"c\",\"balances\":{\"a\":1,\"a\":2}}",
    )
    .unwrap_err();
    assert!(matches!(err, GenesisError::Malformed));
}

#[test]
fn genesis_rejects_missing_field() {
    let err = Genesis::new("{\"genesis_time\":\"t\",\"balances\":{}}").unwrap_err();
    assert!(matches!(err, GenesisError::Malformed));
}

#[test]
fn list_balances_snapshots_state() {
    let mut state = fresh_state(&[("alice", 1000)]);
    state
        .add(Tx::new("alice".into(), "bob".into(), 300, String::new()))
        .unwrap();
    let resp = list_balances(&state);
    assert_eq!(resp.latest_blockhash, "0".repeat(64));
    assert_eq!(resp.balances.len(), 2);
    assert_eq!(resp.balances[0].account.0, "alice");
    assert_eq!(resp.balances[0].amount, 700);
    assert_eq!(resp.balances[1].account.0, "bob");
    assert_eq!(resp.balances[1].amount, 300);
}

#[test]
fn submit_does_not_move_the_tip() {
    let mut state = fresh_state(&[("alice", 1000)]);
    let before = state.hash_to_hex();
    state
        .add(Tx::new("alice".into(), "bob".into(), 1, String::new()))
        .unwrap();
    assert_eq!(state.hash_to_hex(), before);
}

#[test]
fn load_accepts_log_without_trailing_newline() {
    let genesis = Genesis::new(
        "{\"genesis_time\":\"t\",\"chain_id\":\"c\",\"balances\":{\"alice\":100}}",
    )
    .unwrap();
    let mut state = State::new_from_disk(&genesis, "").unwrap();
    state
        .add(Tx::new("alice".into(), "bob".into(), 10, String::new()))
        .unwrap();
    let (_h, line) = state.persist(7);
    let reloaded = State::new_from_disk(&genesis, &line).unwrap();
    assert_eq!(reloaded.height, 1);
    assert_eq!(reloaded.latest_blockhash.0, state.latest_blockhash.0);
}

#[test]
fn genesis_with_empty_balances_loads() {
    let genesis =
        Genesis::new("{\"genesis_time\":\"t\",\"chain_id\":\"c\",\"balances\":{}}").unwrap();
    assert!(genesis.balances.is_empty());
    let state = State::new_from_disk(&genesis, "").unwrap();
    assert_eq!(state.height, 0);
    assert_eq!(state.hash_to_hex(), "0".repeat(64));
}
