use keyledger::ledger::{remaining_unclaimed, set_round_db, Ledger};
use keyledger::settings::Settings;
use keyledger::model::{BindError, Claim, Ingested};
use keyledger::sync::read_beta_keys_file;

fn lines(items: &[&str]) -> Vec<String> {
    items.iter().map(|k| k.to_string()).collect()
}

#[test]
fn new_ledger_is_empty() {
    let ledger = Ledger::new();
    assert_eq!(ledger.token_count(), 0);
    assert_eq!(ledger.user_count(), 0);
    assert_eq!(ledger.round_count(), 0);
    assert_eq!(ledger.settings().len(), 0);
    assert_eq!(remaining_unclaimed(&ledger), 0);
}

#[test]
fn ingest_inserts_once() {
    let mut ledger = Ledger::new();
    assert_eq!(ledger.ingest("K1", 10), Ingested::Inserted);
    assert_eq!(ledger.ingest("K1", 20), Ingested::AlreadyPresent);
    assert_eq!(ledger.ingest("K2", 30), Ingested::Inserted);
    assert_eq!(ledger.token_count(), 2);
    assert_eq!(ledger.token_value(0), "K1");
    assert_eq!(ledger.token_added_at(0), 10);
    assert_eq!(ledger.token_claim(0), None);
    assert_eq!(ledger.token_value(1), "K2");
    assert_eq!(ledger.token_added_at(1), 30);
}

#[test]
fn sync_counts_new_keys_only() {
    let mut ledger = Ledger::new();
    assert_eq!(read_beta_keys_file(&mut ledger, &lines(&["a", "b", "a", "", "c", ""]), 1), 4);
    assert_eq!(ledger.token_count(), 4);
    assert_eq!(ledger.token_value(2), "");
    assert_eq!(ledger.token_value(3), "c");
}

#[test]
fn sync_twice_is_sync_once() {
    let mut ledger = Ledger::new();
    let source = lines(&["a", "b", "c"]);
    assert_eq!(read_beta_keys_file(&mut ledger, &source, 1), 3);
    assert_eq!(read_beta_keys_file(&mut ledger, &source, 2), 0);
    assert_eq!(ledger.token_count(), 3);
    assert_eq!(remaining_unclaimed(&ledger), 3);
    for i in 0..3 {
        assert_eq!(ledger.token_value(i), source[i]);
        assert_eq!(ledger.token_added_at(i), 1);
    }
}

#[test]
fn sync_keeps_keys_that_left_the_source() {
    let mut ledger = Ledger::new();
    assert_eq!(read_beta_keys_file(&mut ledger, &lines(&["a", "b"]), 1), 2);
    assert_eq!(read_beta_keys_file(&mut ledger, &lines(&["c"]), 2), 1);
    assert_eq!(read_beta_keys_file(&mut ledger, &lines(&[]), 3), 0);
    assert_eq!(ledger.token_count(), 3);
}

#[test]
fn sync_holds_the_same_keys_in_any_order() {
    let mut one = Ledger::new();
    let mut two = Ledger::new();
    read_beta_keys_file(&mut one, &lines(&["a", "b", "c"]), 1);
    read_beta_keys_file(&mut two, &lines(&["c", "a", "b"]), 1);
    let mut left: Vec<String> = (0..one.token_count()).map(|i| one.token_value(i)).collect();
    let mut right: Vec<String> = (0..two.token_count()).map(|i| two.token_value(i)).collect();
    left.sort();
    right.sort();
    assert_eq!(left, right);
}

#[test]
fn ensure_returns_the_same_id() {
    let mut ledger = Ledger::new();
    assert_eq!(ledger.ensure("alice"), 0);
    assert_eq!(ledger.ensure("bob"), 1);
    assert_eq!(ledger.ensure("alice"), 0);
    assert_eq!(ledger.user_count(), 2);
    assert_eq!(ledger.user_name(1), "bob");
}

#[test]
fn bind_sets_the_claim_once() {
    let mut ledger = Ledger::new();
    ledger.ingest("K1", 1);
    let id = ledger.ensure("alice");
    set_round_db(&mut ledger, 4, &mut Settings::new());
    assert_eq!(ledger.bind("K1", id, Some(4), 50), Ok(()));
    assert_eq!(ledger.token_claim(0), Some(Claim { user: id, round: Some(4), at: 50 }));
    assert_eq!(ledger.token_value(0), "K1");
    assert_eq!(ledger.token_added_at(0), 1);
    assert_eq!(ledger.bind("K1", id, Some(5), 60), Err(BindError::AlreadyClaimed));
    assert_eq!(ledger.token_claim(0), Some(Claim { user: id, round: Some(4), at: 50 }));
}

#[test]
fn bind_refuses_unknown_key_and_user() {
    let mut ledger = Ledger::new();
    ledger.ingest("K1", 1);
    assert_eq!(ledger.bind("K2", 0, None, 2), Err(BindError::TokenNotFound));
    assert_eq!(ledger.bind("K1", 0, None, 2), Err(BindError::UnknownUser));
    assert_eq!(ledger.bind("K1", 0, Some(1), 2), Err(BindError::UnknownUser));
    ledger.ensure("alice");
    assert_eq!(ledger.bind("K1", 0, Some(1), 2), Err(BindError::UnknownRound));
    assert_eq!(ledger.token_claim(0), None);
    assert_eq!(remaining_unclaimed(&ledger), 1);
}

#[test]
fn select_skips_blocked_users() {
    let mut ledger = Ledger::new();
    ledger.ingest("K1", 1);
    ledger.ingest("K2", 1);
    assert_eq!(ledger.select_one_unclaimed_excluding("alice"), Some("K1".to_string()));
    let id = ledger.ensure("alice");
    let mut cache = Settings::new();
    set_round_db(&mut ledger, 1, &mut cache);
    assert_eq!(ledger.bind("K1", id, Some(1), 2), Ok(()));
    assert_eq!(ledger.select_one_unclaimed_excluding("alice"), None);
    assert_eq!(ledger.select_one_unclaimed_excluding("bob"), Some("K2".to_string()));
    assert_eq!(ledger.select_one_unclaimed(), Some("K2".to_string()));
}

#[test]
fn remaining_counts_unclaimed_keys() {
    let mut ledger = Ledger::new();
    read_beta_keys_file(&mut ledger, &lines(&["a", "b", "c"]), 1);
    let id = ledger.ensure("u");
    assert_eq!(remaining_unclaimed(&ledger), 3);
    assert_eq!(ledger.bind("b", id, None, 2), Ok(()));
    assert_eq!(remaining_unclaimed(&ledger), 2);
}

#[test]
fn rows_and_ids_are_found_by_value() {
    let mut ledger = Ledger::new();
    read_beta_keys_file(&mut ledger, &lines(&["a", "b"]), 1);
    ledger.ensure("alice");
    assert_eq!(ledger.token_row("b"), Some(1));
    assert_eq!(ledger.token_row("c"), None);
    assert_eq!(ledger.user_id("alice"), Some(0));
    assert_eq!(ledger.user_id("bob"), None);
}
