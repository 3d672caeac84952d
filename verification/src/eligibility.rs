//! Who may ask for a key: the rule that callers apply before a claim.

use vstd::prelude::*;

verus! {

/// What the eligibility rule says of one request.
#[derive(Clone, Copy, Debug, PartialEq, Eq, Structural)]
pub enum Admission {
    /// The account is a service account; it never gets a key.
    Service,
    /// The account is younger than the minimum age.
    TooNew,
    /// The account lacks the eligibility role.
    NoRole,
    /// The request may go on to a claim.
    Admitted,
}

/// The whole days in `millis` milliseconds, rounded toward zero.
pub open spec fn whole_days(millis: int) -> int {
    if millis >= 0 {
        millis / 86_400_000
    } else {
        -((-millis) / 86_400_000)
    }
}

/// The age of an account in whole days: the days from `created_ms` to
/// `now_ms`, both in milliseconds since the epoch, rounded toward zero.
pub fn account_age_days(now_ms: i64, created_ms: i64) -> (days: i64)
    ensures
        days == whole_days(now_ms - created_ms),
{
    if now_ms >= created_ms {
        let span: u64 = ((now_ms as i128) - (created_ms as i128)) as u64;
        (span / 86_400_000) as i64
    } else {
        let span: u64 = ((created_ms as i128) - (now_ms as i128)) as u64;
        -((span / 86_400_000) as i64)
    }
}

/// What the rule says of an account that is `age_days` whole days old under a
/// minimum age of `min_age_days`: an account of exactly the minimum age meets
/// it.
pub open spec fn admission(
    is_service: bool,
    has_role: bool,
    age_days: i64,
    min_age_days: i64,
) -> Admission {
    if is_service {
        Admission::Service
    } else if age_days < min_age_days {
        Admission::TooNew
    } else if !has_role {
        Admission::NoRole
    } else {
        Admission::Admitted
    }
}

/// Applies the eligibility rule: a service account is turned away first,
/// then an account that is younger than the minimum age, then one without
/// the role. An account that is at least `min_age_days` whole days old is
/// old enough.
pub fn assess(is_service: bool, has_role: bool, age_days: i64, min_age_days: i64) -> (a: Admission)
    ensures
        a == admission(is_service, has_role, age_days, min_age_days),
{
    if is_service {
        Admission::Service
    } else if age_days < min_age_days {
        Admission::TooNew
    } else if !has_role {
        Admission::NoRole
    } else {
        Admission::Admitted
    }
}

} // verus!
