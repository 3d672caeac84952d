use keyledger::decimal::round_text;
use keyledger::eligibility::{account_age_days, assess, Admission};
use keyledger::ledger::{
    get_config_val, get_round, set_config_val, set_round_db, write_through, Ledger,
};
use keyledger::model::{Round, RoundStatus};
use keyledger::settings::Settings;

fn active_rows(ledger: &Ledger) -> usize {
    (0..ledger.round_count()).filter(|i| ledger.round(*i).status == RoundStatus::Active).count()
}

#[test]
fn no_round_is_active_at_first() {
    let ledger = Ledger::new();
    assert_eq!(get_round(&ledger), None);
    assert_eq!(active_rows(&ledger), 0);
}

#[test]
fn opening_completes_the_active_round() {
    let mut ledger = Ledger::new();
    let mut cache = Settings::new();
    set_round_db(&mut ledger, 1, &mut cache);
    assert_eq!(get_round(&ledger), Some(1));
    set_round_db(&mut ledger, 5, &mut cache);
    assert_eq!(get_round(&ledger), Some(5));
    assert_eq!(ledger.round_count(), 2);
    assert_eq!(ledger.round(0), Round { number: 1, status: RoundStatus::Completed });
    assert_eq!(ledger.round(1), Round { number: 5, status: RoundStatus::Active });
    assert_eq!(active_rows(&ledger), 1);
}

#[test]
fn exactly_one_round_is_active_after_any_openings() {
    let mut ledger = Ledger::new();
    let mut cache = Settings::new();
    for number in [3, 1, 3, 2, 2, -4, 1] {
        set_round_db(&mut ledger, number, &mut cache);
        assert_eq!(active_rows(&ledger), 1);
        assert_eq!(get_round(&ledger), Some(number));
    }
    assert_eq!(ledger.round_count(), 4);
}

#[test]
fn reopening_replaces_the_row() {
    let mut ledger = Ledger::new();
    let mut cache = Settings::new();
    set_round_db(&mut ledger, 1, &mut cache);
    set_round_db(&mut ledger, 2, &mut cache);
    set_round_db(&mut ledger, 1, &mut cache);
    assert_eq!(ledger.round_count(), 2);
    assert_eq!(ledger.round(0), Round { number: 1, status: RoundStatus::Active });
    assert_eq!(ledger.round(1), Round { number: 2, status: RoundStatus::Completed });
}

#[test]
fn opening_refreshes_the_mirrored_round() {
    let mut ledger = Ledger::new();
    let mut cache = Settings::new();
    assert_eq!(cache.get("claim_round"), None);
    set_round_db(&mut ledger, 7, &mut cache);
    assert_eq!(cache.get("claim_round"), Some("7".to_string()));
    set_round_db(&mut ledger, -12, &mut cache);
    assert_eq!(cache.get("claim_round"), Some("-12".to_string()));
    assert_eq!(cache.len(), 1);
    assert_eq!(get_config_val(&ledger, "claim_round"), None);
}

#[test]
fn settings_are_missing_until_set() {
    let mut ledger = Ledger::new();
    assert_eq!(get_config_val(&ledger, "role_id"), None);
    set_config_val(&mut ledger, "role_id", "42");
    assert_eq!(get_config_val(&ledger, "role_id"), Some("42".to_string()));
    assert_eq!(get_config_val(&ledger, "age_bound"), None);
}

#[test]
fn setting_a_key_again_replaces_its_value() {
    let mut ledger = Ledger::new();
    set_config_val(&mut ledger, "role_id", "42");
    set_config_val(&mut ledger, "age_bound", "5");
    set_config_val(&mut ledger, "role_id", "43");
    assert_eq!(get_config_val(&ledger, "role_id"), Some("43".to_string()));
    assert_eq!(ledger.settings().len(), 2);
    assert_eq!(ledger.settings().entry(0), ("role_id".to_string(), "43".to_string()));
    assert_eq!(ledger.settings().entry(1), ("age_bound".to_string(), "5".to_string()));
}

#[test]
fn write_through_updates_store_and_mirror() {
    let mut ledger = Ledger::new();
    let mut cache = Settings::new();
    cache.set("age_bound", "5");
    write_through(&mut ledger, &mut cache, "role_id", "99");
    assert_eq!(get_config_val(&ledger, "role_id"), Some("99".to_string()));
    assert_eq!(cache.get("role_id"), Some("99".to_string()));
    assert_eq!(cache.get("age_bound"), Some("5".to_string()));
    assert_eq!(get_config_val(&ledger, "age_bound"), None);
}

#[test]
fn admission_checks_service_then_age_then_role() {
    assert_eq!(assess(true, true, 100, 5), Admission::Service);
    assert_eq!(assess(false, true, 5, 5), Admission::Admitted);
    assert_eq!(assess(false, false, 5, 5), Admission::NoRole);
    assert_eq!(assess(false, true, 4, 5), Admission::TooNew);
    assert_eq!(assess(false, false, 4, 5), Admission::TooNew);
    assert_eq!(assess(false, false, 6, 5), Admission::NoRole);
    assert_eq!(assess(false, true, 6, 5), Admission::Admitted);
}

#[test]
fn round_numbers_are_written_in_decimal() {
    assert_eq!(round_text(0), "0");
    assert_eq!(round_text(7), "7");
    assert_eq!(round_text(10), "10");
    assert_eq!(round_text(-1), "-1");
    assert_eq!(round_text(1234567890), "1234567890");
    assert_eq!(round_text(i64::MAX), "9223372036854775807");
    assert_eq!(round_text(i64::MIN), "-9223372036854775808");
    for n in [-1001i64, -10, -9, 9, 99, 100, 101, 4096] {
        assert_eq!(round_text(n), n.to_string());
    }
}

#[test]
fn account_age_counts_whole_days() {
    let day = 86_400_000i64;
    assert_eq!(account_age_days(0, 0), 0);
    assert_eq!(account_age_days(day - 1, 0), 0);
    assert_eq!(account_age_days(day, 0), 1);
    assert_eq!(account_age_days(5 * day + 17, 10), 5);
    assert_eq!(account_age_days(6 * day + 10, 10), 6);
    assert_eq!(account_age_days(0, day - 1), 0);
    assert_eq!(account_age_days(0, 3 * day + 5), -3);
    assert_eq!(account_age_days(i64::MAX, i64::MIN), 213503982334);
    assert_eq!(account_age_days(i64::MIN, i64::MAX), -213503982334);
}
