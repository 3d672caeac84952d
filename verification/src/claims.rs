//! Claims: handing one unclaimed key to one user.

use vstd::prelude::*;
use crate::laws::{lemma_claim_takes_one_key, lemma_grant_takes_one_key};
use crate::ledger::{get_round, remaining_unclaimed, Ledger};
use crate::model::{
    is_unclaimed, lemma_active_round_known, lemma_first_index, unclaimed_count, ClaimError,
};

verus! {

/// Claims a key for `user` at `now`.
///
/// The user is registered in any case. The claim succeeds exactly when the
/// user holds no key of the active round and a key is left; it then returns
/// the first unclaimed key, bound to the user and the active round. A user
/// who is refused while keys remain gets `AlreadyClaimedThisRound`; with no
/// key left the answer is `PoolExhausted`.
pub fn claim_key_with_user(ledger: &mut Ledger, user: &str, now: i64) -> (r: Result<
    String,
    ClaimError,
>)
    requires
        old(ledger)@.wf(),
    ensures
        final(ledger)@ == old(ledger)@.claimed(user@, now),
        final(ledger)@.wf(),
        match r {
            Ok(key) => old(ledger)@.claim_result(user@) == Ok::<Seq<char>, ClaimError>(key@),
            Err(e) => old(ledger)@.claim_result(user@) == Err::<Seq<char>, ClaimError>(e),
        },
        r is Ok <==> unclaimed_count(old(ledger)@.tokens) > 0 && !old(ledger)@.ensured(
            user@,
        ).blocked(user@),
        unclaimed_count(final(ledger)@.tokens) == unclaimed_count(old(ledger)@.tokens) - if r is Ok {
            1int
        } else {
            0int
        },
{
    proof {
        lemma_claim_takes_one_key(old(ledger)@, user@, now);
    }
    let id = ledger.ensure(user);
    let ghost v = ledger@;
    match ledger.select_one_unclaimed_excluding(user) {
        None => {
            if remaining_unclaimed(ledger) > 0 {
                Err(ClaimError::AlreadyClaimedThisRound)
            } else {
                Err(ClaimError::PoolExhausted)
            }
        },
        Some(key) => {
            let round = get_round(ledger);
            proof {
                lemma_first_index(v.tokens, is_unclaimed());
                v.lemma_token_index_of_row(v.first_unclaimed());
                lemma_active_round_known(v.rounds);
            }
            // The key was selected a moment ago, so the bind cannot be
            // refused: the contract above leaves no room for this error.
            match ledger.bind(key.as_str(), id, round, now) {
                Ok(_) => Ok(key),
                Err(_) => Err(ClaimError::TransactionFailed),
            }
        },
    }
}

/// Grants a key to `user` at `now` without asking whether the user already
/// holds one of the active round: an administrator's override.
///
/// Succeeds exactly when a key is left; it then registers the user and
/// returns the first unclaimed key, bound to the user and the active round.
/// With no key left the ledger is unchanged and the answer is
/// `PoolExhausted`.
pub fn give_key_unchecked(ledger: &mut Ledger, user: &str, now: i64) -> (r: Result<
    String,
    ClaimError,
>)
    requires
        old(ledger)@.wf(),
    ensures
        final(ledger)@ == old(ledger)@.granted(user@, now),
        final(ledger)@.wf(),
        match r {
            Ok(key) => old(ledger)@.grant_result() == Ok::<Seq<char>, ClaimError>(key@),
            Err(e) => old(ledger)@.grant_result() == Err::<Seq<char>, ClaimError>(e),
        },
        r is Ok <==> unclaimed_count(old(ledger)@.tokens) > 0,
        unclaimed_count(final(ledger)@.tokens) == unclaimed_count(old(ledger)@.tokens) - if r is Ok {
            1int
        } else {
            0int
        },
{
    proof {
        lemma_grant_takes_one_key(old(ledger)@, user@, now);
    }
    match ledger.select_one_unclaimed() {
        None => Err(ClaimError::PoolExhausted),
        Some(key) => {
            let id = ledger.ensure(user);
            let ghost v = ledger@;
            let round = get_round(ledger);
            proof {
                lemma_first_index(v.tokens, is_unclaimed());
                v.lemma_token_index_of_row(v.first_unclaimed());
                lemma_active_round_known(v.rounds);
            }
            // The key was selected a moment ago, so the bind cannot be
            // refused: the contract above leaves no room for this error.
            match ledger.bind(key.as_str(), id, round, now) {
                Ok(_) => Ok(key),
                Err(_) => Err(ClaimError::TransactionFailed),
            }
        },
    }
}

} // verus!
