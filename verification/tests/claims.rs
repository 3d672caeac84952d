use keyledger::claims::{claim_key_with_user, give_key_unchecked};
use keyledger::ledger::{get_round, remaining_unclaimed, set_round_db, Ledger};
use keyledger::model::{Claim, ClaimError};
use keyledger::settings::Settings;
use keyledger::sync::read_beta_keys_file;

fn pool(keys: &[&str]) -> Ledger {
    let mut ledger = Ledger::new();
    let lines: Vec<String> = keys.iter().map(|k| k.to_string()).collect();
    assert_eq!(read_beta_keys_file(&mut ledger, &lines, 100), keys.len());
    ledger
}

fn open(ledger: &mut Ledger, round: i64) {
    let mut cache = Settings::new();
    set_round_db(ledger, round, &mut cache);
}

#[test]
fn scenario_two_keys_three_users() {
    let mut ledger = pool(&["K1", "K2"]);
    open(&mut ledger, 1);
    assert_eq!(claim_key_with_user(&mut ledger, "alice", 200), Ok("K1".to_string()));
    assert_eq!(
        claim_key_with_user(&mut ledger, "alice", 201),
        Err(ClaimError::AlreadyClaimedThisRound)
    );
    assert_eq!(claim_key_with_user(&mut ledger, "bob", 202), Ok("K2".to_string()));
    assert_eq!(claim_key_with_user(&mut ledger, "carol", 203), Err(ClaimError::PoolExhausted));
    open(&mut ledger, 2);
    assert_eq!(claim_key_with_user(&mut ledger, "alice", 204), Err(ClaimError::PoolExhausted));
    let more = vec!["K3".to_string()];
    assert_eq!(read_beta_keys_file(&mut ledger, &more, 205), 1);
    assert_eq!(claim_key_with_user(&mut ledger, "alice", 206), Ok("K3".to_string()));
}

#[test]
fn more_callers_than_keys_get_each_key_once() {
    let mut ledger = pool(&["a", "b", "c", "d", "e"]);
    open(&mut ledger, 1);
    let mut got: Vec<String> = Vec::new();
    let mut exhausted = 0;
    for n in 0..8 {
        match claim_key_with_user(&mut ledger, &format!("user{}", n), 300 + n) {
            Ok(key) => {
                assert!(!got.contains(&key));
                got.push(key);
            }
            Err(e) => {
                assert_eq!(e, ClaimError::PoolExhausted);
                exhausted += 1;
            }
        }
    }
    assert_eq!(got, vec!["a", "b", "c", "d", "e"]);
    assert_eq!(exhausted, 3);
    assert_eq!(remaining_unclaimed(&ledger), 0);
}

#[test]
fn second_claim_in_the_same_round_is_refused() {
    let mut ledger = pool(&["a", "b", "c"]);
    open(&mut ledger, 7);
    assert_eq!(claim_key_with_user(&mut ledger, "alice", 1), Ok("a".to_string()));
    assert_eq!(claim_key_with_user(&mut ledger, "bob", 2), Ok("b".to_string()));
    assert_eq!(read_beta_keys_file(&mut ledger, &vec!["d".to_string()], 3), 1);
    assert_eq!(
        claim_key_with_user(&mut ledger, "alice", 4),
        Err(ClaimError::AlreadyClaimedThisRound)
    );
    assert_eq!(remaining_unclaimed(&ledger), 2);
    assert_eq!(ledger.token_claim(2), None);
}

#[test]
fn second_claim_with_empty_pool_reports_exhaustion() {
    let mut ledger = pool(&["only"]);
    open(&mut ledger, 1);
    assert_eq!(claim_key_with_user(&mut ledger, "alice", 1), Ok("only".to_string()));
    assert_eq!(claim_key_with_user(&mut ledger, "alice", 2), Err(ClaimError::PoolExhausted));
}

#[test]
fn rollover_allows_a_new_claim() {
    let mut ledger = pool(&["a", "b"]);
    open(&mut ledger, 1);
    assert_eq!(claim_key_with_user(&mut ledger, "alice", 1), Ok("a".to_string()));
    open(&mut ledger, 2);
    assert_eq!(claim_key_with_user(&mut ledger, "alice", 2), Ok("b".to_string()));
    assert_eq!(ledger.token_claim(0), Some(Claim { user: 0, round: Some(1), at: 1 }));
    assert_eq!(ledger.token_claim(1), Some(Claim { user: 0, round: Some(2), at: 2 }));
}

#[test]
fn reopening_a_round_number_revives_its_claims() {
    let mut ledger = pool(&["a", "b", "c"]);
    open(&mut ledger, 1);
    assert_eq!(claim_key_with_user(&mut ledger, "alice", 1), Ok("a".to_string()));
    open(&mut ledger, 2);
    open(&mut ledger, 1);
    assert_eq!(get_round(&ledger), Some(1));
    assert_eq!(
        claim_key_with_user(&mut ledger, "alice", 2),
        Err(ClaimError::AlreadyClaimedThisRound)
    );
    assert_eq!(claim_key_with_user(&mut ledger, "bob", 3), Ok("b".to_string()));
}

#[test]
fn claim_without_an_active_round_records_no_round() {
    let mut ledger = pool(&["a", "b"]);
    assert_eq!(claim_key_with_user(&mut ledger, "alice", 5), Ok("a".to_string()));
    assert_eq!(ledger.token_claim(0), Some(Claim { user: 0, round: None, at: 5 }));
    assert_eq!(claim_key_with_user(&mut ledger, "alice", 6), Ok("b".to_string()));
}

#[test]
fn failed_claim_still_registers_the_user() {
    let mut ledger = Ledger::new();
    assert_eq!(claim_key_with_user(&mut ledger, "alice", 1), Err(ClaimError::PoolExhausted));
    assert_eq!(ledger.user_count(), 1);
    assert_eq!(ledger.user_name(0), "alice");
}

#[test]
fn grant_ignores_the_round_rule() {
    let mut ledger = pool(&["a", "b"]);
    open(&mut ledger, 3);
    assert_eq!(claim_key_with_user(&mut ledger, "alice", 1), Ok("a".to_string()));
    assert_eq!(give_key_unchecked(&mut ledger, "alice", 2), Ok("b".to_string()));
    assert_eq!(ledger.token_claim(1), Some(Claim { user: 0, round: Some(3), at: 2 }));
    assert_eq!(give_key_unchecked(&mut ledger, "alice", 3), Err(ClaimError::PoolExhausted));
}

#[test]
fn failed_grant_changes_nothing() {
    let mut ledger = Ledger::new();
    assert_eq!(give_key_unchecked(&mut ledger, "dave", 1), Err(ClaimError::PoolExhausted));
    assert_eq!(ledger.user_count(), 0);
    assert_eq!(ledger.token_count(), 0);
}

#[test]
fn claims_take_keys_in_the_order_they_were_added() {
    let mut ledger = pool(&["z", "m", "a"]);
    open(&mut ledger, 1);
    assert_eq!(claim_key_with_user(&mut ledger, "u1", 1), Ok("z".to_string()));
    assert_eq!(give_key_unchecked(&mut ledger, "u2", 2), Ok("m".to_string()));
    assert_eq!(claim_key_with_user(&mut ledger, "u3", 3), Ok("a".to_string()));
    assert_eq!(remaining_unclaimed(&ledger), 0);
}
