//! What holds of every use of the ledger: histories of operations, and the
//! laws that every history obeys.

use vstd::prelude::*;
use crate::model::{
    active_round, first_index, has_value, is_active, is_name, is_unclaimed,
    lemma_active_round_known, lemma_first_index, lemma_with_setting, unclaimed_count, ClaimError,
    ClaimView, LedgerView, Round, RoundStatus, TokenView,
};

verus! {

/// One call on the ledger, as a plain value.
pub enum Op {
    /// A claim by `user` at `now`.
    Claim { user: Seq<char>, now: i64 },
    /// An administrator's grant to `user` at `now`.
    Grant { user: Seq<char>, now: i64 },
    /// Opening round `number`.
    OpenRound { number: i64 },
    /// Ingesting the candidate `value` at `now`.
    Ingest { value: Seq<char>, now: i64 },
    /// Storing `value` under `key`.
    Configure { key: Seq<char>, value: Seq<char> },
    /// Registering the user `name`.
    Ensure { name: Seq<char> },
    /// Binding `claim` to the key `token`.
    Bind { token: Seq<char>, claim: ClaimView },
}

/// The ledger after `op`.
pub open spec fn step(v: LedgerView, op: Op) -> LedgerView {
    match op {
        Op::Claim { user, now } => v.claimed(user, now),
        Op::Grant { user, now } => v.granted(user, now),
        Op::OpenRound { number } => v.opened(number),
        Op::Ingest { value, now } => v.ingested(value, now),
        Op::Configure { key, value } => v.configured(key, value),
        Op::Ensure { name } => v.ensured(name),
        Op::Bind { token, claim } => v.attached(token, claim),
    }
}

/// The key that `op` hands out on the ledger `v`, if it hands one out.
pub open spec fn handed_out(v: LedgerView, op: Op) -> Option<Seq<char>> {
    match op {
        Op::Claim { user, now } => match v.claim_result(user) {
            Ok(key) => Some(key),
            Err(_) => None,
        },
        Op::Grant { user, now } => match v.grant_result() {
            Ok(key) => Some(key),
            Err(_) => None,
        },
        _ => None,
    }
}

/// The ledger after the calls `ops`, first to last.
pub open spec fn run(v: LedgerView, ops: Seq<Op>) -> LedgerView
    decreases ops.len(),
{
    if ops.len() == 0 {
        v
    } else {
        step(run(v, ops.drop_last()), ops.last())
    }
}

/// The number of the round that `ops` opened last, if they opened one.
pub open spec fn last_opened(ops: Seq<Op>) -> Option<i64>
    decreases ops.len(),
{
    if ops.len() == 0 {
        None
    } else {
        match ops.last() {
            Op::OpenRound { number } => Some(number),
            _ => last_opened(ops.drop_last()),
        }
    }
}

/// `b` keeps what `a` recorded: every key of `a` stands in its row with its
/// value, every claim of `a` stands unchanged, and every user keeps its id.
pub open spec fn keeps(a: LedgerView, b: LedgerView) -> bool {
    &&& a.tokens.len() <= b.tokens.len()
    &&& a.users.len() <= b.users.len()
    &&& forall|i: int|
        #![trigger a.tokens[i]]
        #![trigger b.tokens[i]]
        0 <= i < a.tokens.len() ==> b.tokens[i].value == a.tokens[i].value && (a.tokens[i].claim
            is Some ==> b.tokens[i].claim == a.tokens[i].claim)
    &&& forall|i: int|
        #![trigger a.users[i]]
        #![trigger b.users[i]]
        0 <= i < a.users.len() ==> b.users[i] == a.users[i]
}

/// Whether the inventory holds the key `value`.
pub open spec fn holds(v: LedgerView, value: Seq<char>) -> bool {
    exists|i: int| 0 <= i < v.tokens.len() && (#[trigger] v.tokens[i]).value == value
}

/// Whether `name` holds a key that was bound under round `number`.
pub open spec fn claimed_in_round(v: LedgerView, name: Seq<char>, number: i64) -> bool {
    exists|i: int|
        0 <= i < v.tokens.len() && match (#[trigger] v.tokens[i]).claim {
            Some(c) => 0 <= c.user < v.users.len() && v.users[c.user] == name && c.round == Some(
                number,
            ),
            None => false,
        }
}

/// A claim or a grant, where it hands out a key, takes a key that was
/// unclaimed and leaves it claimed; the ledger after it is valid and keeps
/// what was recorded before.
pub proof fn lemma_step(v: LedgerView, op: Op)
    requires
        v.wf(),
    ensures
        step(v, op).wf(),
        keeps(v, step(v, op)),
        match handed_out(v, op) {
            Some(key) => exists|i: int|
                0 <= i < v.tokens.len() && (#[trigger] v.tokens[i]).value == key
                    && v.tokens[i].claim is None && step(v, op).tokens[i].claim is Some,
            None => true,
        },
        !(op is OpenRound) ==> step(v, op).rounds == v.rounds,
        op is OpenRound ==> active_round(step(v, op).rounds) == Some(op->number),
{
    match op {
        Op::Claim { user, now } => {
            lemma_claim(v, user, now);
        },
        Op::Grant { user, now } => {
            v.lemma_ensured(user);
            let e = v.ensured(user);
            lemma_first_index(e.tokens, is_unclaimed());
            let i = e.first_unclaimed();
            if i < e.tokens.len() {
                let c = ClaimView {
                    user: e.user_index(user),
                    round: active_round(e.rounds),
                    at: now,
                };
                lemma_active_round_known(e.rounds);
                e.lemma_bound_wf(i, c);
                assert(v.tokens[i].value == e.tokens[i].value);
            }
        },
        Op::OpenRound { number } => {
            v.lemma_opened(number);
        },
        Op::Ingest { value, now } => {
            v.lemma_ingested_wf(value, now);
        },
        Op::Configure { key, value } => {
            lemma_with_setting(v.config, key, value);
        },
        Op::Ensure { name } => {
            v.lemma_ensured(name);
        },
        Op::Bind { token, claim } => {
            lemma_first_index(v.tokens, has_value(token));
            if v.can_bind(token, claim) {
                v.lemma_bound_wf(v.token_index(token), claim);
            }
        },
    }
}

/// A claim keeps the ledger valid and what it recorded; where it succeeds,
/// the key it returns was unclaimed and is now bound to the user.
pub proof fn lemma_claim(v: LedgerView, user: Seq<char>, now: i64)
    requires
        v.wf(),
    ensures
        v.claimed(user, now).wf(),
        keeps(v, v.claimed(user, now)),
        v.claimed(user, now).rounds == v.rounds,
        match v.claim_result(user) {
            Ok(key) => exists|i: int|
                0 <= i < v.tokens.len() && (#[trigger] v.tokens[i]).value == key
                    && v.tokens[i].claim is None && match v.claimed(user, now).tokens[i].claim {
                    Some(c) => 0 <= c.user < v.claimed(user, now).users.len() && v.claimed(
                        user,
                        now,
                    ).users[c.user] == user && c.round == active_round(v.rounds),
                    None => false,
                },
            Err(_) => v.claimed(user, now) == v.ensured(user),
        },
{
    v.lemma_ensured(user);
    let e = v.ensured(user);
    lemma_first_index(e.tokens, is_unclaimed());
    let i = e.first_unclaimed();
    if !e.blocked(user) && i < e.tokens.len() {
        let c = ClaimView { user: e.user_index(user), round: active_round(e.rounds), at: now };
        lemma_active_round_known(e.rounds);
        e.lemma_bound_wf(i, c);
        assert(v.tokens[i].value == e.tokens[i].value);
        assert(v.claimed(user, now).tokens[i].claim == Some(c));
    }
}

/// Every history keeps the ledger valid and keeps what was recorded.
pub proof fn lemma_run(v: LedgerView, ops: Seq<Op>)
    requires
        v.wf(),
    ensures
        run(v, ops).wf(),
        keeps(v, run(v, ops)),
    decreases ops.len(),
{
    if ops.len() > 0 {
        lemma_run(v, ops.drop_last());
        lemma_step(run(v, ops.drop_last()), ops.last());
    }
}

/// A longer history keeps what a shorter one recorded.
pub proof fn lemma_run_prefix(v: LedgerView, ops: Seq<Op>, i: int, j: int)
    requires
        v.wf(),
        0 <= i <= j <= ops.len(),
    ensures
        run(v, ops.take(i)).wf(),
        run(v, ops.take(j)).wf(),
        keeps(run(v, ops.take(i)), run(v, ops.take(j))),
    decreases j - i,
{
    lemma_run(v, ops.take(i));
    if i < j {
        lemma_run_prefix(v, ops, i, j - 1);
        assert(ops.take(j).drop_last() =~= ops.take(j - 1));
        lemma_step(run(v, ops.take(j - 1)), ops[j - 1]);
    }
}

/// No key is handed out twice: in any history, two calls that each hand out
/// a key hand out different keys.
pub proof fn lemma_no_key_handed_out_twice(v: LedgerView, ops: Seq<Op>, i: int, j: int)
    requires
        v.wf(),
        0 <= i < j < ops.len(),
        handed_out(run(v, ops.take(i)), ops[i]) is Some,
        handed_out(run(v, ops.take(j)), ops[j]) is Some,
    ensures
        handed_out(run(v, ops.take(i)), ops[i]) != handed_out(run(v, ops.take(j)), ops[j]),
{
    let si = run(v, ops.take(i));
    let sn = run(v, ops.take(i + 1));
    let sj = run(v, ops.take(j));
    lemma_run_prefix(v, ops, i, i + 1);
    lemma_run_prefix(v, ops, i + 1, j);
    assert(ops.take(i + 1).drop_last() =~= ops.take(i));
    assert(sn == step(si, ops[i]));
    lemma_step(si, ops[i]);
    lemma_step(sj, ops[j]);
    let a = handed_out(si, ops[i])->0;
    let b = handed_out(sj, ops[j])->0;
    let ia = choose|k: int|
        0 <= k < si.tokens.len() && (#[trigger] si.tokens[k]).value == a && si.tokens[k].claim
            is None && sn.tokens[k].claim is Some;
    let ib = choose|k: int|
        0 <= k < sj.tokens.len() && (#[trigger] sj.tokens[k]).value == b && sj.tokens[k].claim
            is None && step(sj, ops[j]).tokens[k].claim is Some;
    assert(sn.tokens[ia].value == a);
    assert(sj.tokens[ia].value == a && sj.tokens[ia].claim is Some);
    assert(ia != ib);
}

/// The keys that are unclaimed are none exactly when the count is zero.
pub proof fn lemma_unclaimed_count(tokens: Seq<TokenView>)
    ensures
        unclaimed_count(tokens) == 0 <==> first_index(tokens, is_unclaimed()) == tokens.len(),
    decreases tokens.len(),
{
    lemma_first_index(tokens, is_unclaimed());
    if tokens.len() > 0 {
        let front = tokens.drop_last();
        lemma_unclaimed_count(front);
        lemma_first_index(front, is_unclaimed());
        let f = first_index(tokens, is_unclaimed());
        let g = first_index(front, is_unclaimed());
        assert(forall|k: int| 0 <= k < front.len() ==> front[k] == tokens[k]);
        if g < front.len() {
            assert(is_unclaimed()(front[g]));
            assert(is_unclaimed()(tokens[g]));
        } else if tokens.last().claim is None {
            assert(is_unclaimed()(tokens[tokens.len() - 1]));
        } else {
            assert forall|k: int| 0 <= k < tokens.len() implies !#[trigger] is_unclaimed()(
                tokens[k],
            ) by {
                if k < front.len() {
                    assert(!is_unclaimed()(front[k]));
                }
            }
            if f < tokens.len() {
                assert(is_unclaimed()(tokens[f]));
            }
        }
    }
}

/// Claiming one unclaimed key lowers the count of unclaimed keys by one.
pub proof fn lemma_unclaimed_count_bound(tokens: Seq<TokenView>, i: int, claim: ClaimView)
    requires
        0 <= i < tokens.len(),
        tokens[i].claim is None,
    ensures
        unclaimed_count(tokens.update(i, TokenView { claim: Some(claim), ..tokens[i] }))
            == unclaimed_count(tokens) - 1,
    decreases tokens.len(),
{
    let t = TokenView { claim: Some(claim), ..tokens[i] };
    let after = tokens.update(i, t);
    if i == tokens.len() - 1 {
        assert(after.drop_last() =~= tokens.drop_last());
    } else {
        lemma_unclaimed_count_bound(tokens.drop_last(), i, claim);
        assert(after.drop_last() =~= tokens.drop_last().update(i, t));
        assert(tokens.drop_last()[i] == tokens[i]);
    }
}

/// A claim succeeds exactly when keys remain and the user holds no key of
/// the active round; it then takes exactly one key out of the unclaimed
/// ones, and a refused claim takes none.
pub proof fn lemma_claim_takes_one_key(v: LedgerView, user: Seq<char>, now: i64)
    requires
        v.wf(),
    ensures
        v.claim_result(user) is Ok <==> unclaimed_count(v.tokens) > 0 && !v.ensured(user).blocked(
            user,
        ),
        unclaimed_count(v.claimed(user, now).tokens) == unclaimed_count(v.tokens) - if v.claim_result(
            user,
        ) is Ok {
            1int
        } else {
            0int
        },
{
    let e = v.ensured(user);
    lemma_unclaimed_count(e.tokens);
    lemma_first_index(e.tokens, is_unclaimed());
    let i = e.first_unclaimed();
    if !e.blocked(user) && i < e.tokens.len() {
        let c = ClaimView { user: e.user_index(user), round: active_round(e.rounds), at: now };
        lemma_unclaimed_count_bound(e.tokens, i, c);
    }
}

/// A grant succeeds exactly when keys remain; it then takes exactly one key
/// out of the unclaimed ones.
pub proof fn lemma_grant_takes_one_key(v: LedgerView, user: Seq<char>, now: i64)
    requires
        v.wf(),
    ensures
        v.grant_result() is Ok <==> unclaimed_count(v.tokens) > 0,
        unclaimed_count(v.granted(user, now).tokens) == unclaimed_count(v.tokens) - if v.grant_result() is Ok {
            1int
        } else {
            0int
        },
{
    let e = v.ensured(user);
    lemma_unclaimed_count(v.tokens);
    lemma_first_index(v.tokens, is_unclaimed());
    let i = v.first_unclaimed();
    if i < v.tokens.len() {
        let c = ClaimView { user: e.user_index(user), round: active_round(e.rounds), at: now };
        lemma_unclaimed_count_bound(e.tokens, i, c);
    }
}

/// One key per user and round: after a successful claim under an active
/// round, and whatever is called next short of opening a round, a further
/// claim by the same user hands out no key and changes nothing. The refusal
/// is `AlreadyClaimedThisRound` exactly when keys remain.
pub proof fn lemma_one_key_per_round(
    v: LedgerView,
    user: Seq<char>,
    now: i64,
    ops: Seq<Op>,
    again: i64,
)
    requires
        v.wf(),
        active_round(v.rounds) is Some,
        v.claim_result(user) is Ok,
        forall|k: int| 0 <= k < ops.len() ==> !(#[trigger] ops[k] is OpenRound),
    ensures
        run(v.claimed(user, now), ops).claim_result(user) is Err,
        run(v.claimed(user, now), ops).claimed(user, again) == run(v.claimed(user, now), ops),
        run(v.claimed(user, now), ops).claim_result(user) == Err::<Seq<char>, ClaimError>(
            ClaimError::AlreadyClaimedThisRound,
        ) <==> unclaimed_count(run(v.claimed(user, now), ops).tokens) > 0,
{
    let first = v.claimed(user, now);
    lemma_claim(v, user, now);
    let i = choose|i: int|
        0 <= i < v.tokens.len() && (#[trigger] v.tokens[i]).value == v.claim_result(user)->Ok_0
            && v.tokens[i].claim is None && match first.tokens[i].claim {
            Some(c) => 0 <= c.user < first.users.len() && first.users[c.user] == user && c.round
                == active_round(v.rounds),
            None => false,
        };
    assert(first.holds_active_claim(i, user));
    lemma_blocked_stays(first, user, i, ops);
    let later = run(first, ops);
    lemma_run(first, ops);
    assert(later.holds_active_claim(i, user));
    let c = later.tokens[i].claim->0;
    assert(is_name(user)(later.users[c.user]));
    lemma_first_index(later.users, is_name(user));
    assert(later.user_index(user) < later.users.len());
    assert(later.ensured(user) == later);
}

/// A key held under the active round stays so held while no round is opened.
pub proof fn lemma_blocked_stays(v: LedgerView, user: Seq<char>, i: int, ops: Seq<Op>)
    requires
        v.wf(),
        0 <= i < v.tokens.len(),
        v.holds_active_claim(i, user),
        forall|k: int| 0 <= k < ops.len() ==> !(#[trigger] ops[k] is OpenRound),
    ensures
        run(v, ops).holds_active_claim(i, user),
        run(v, ops).rounds == v.rounds,
        run(v, ops).wf(),
        keeps(v, run(v, ops)),
    decreases ops.len(),
{
    if ops.len() > 0 {
        let front = ops.drop_last();
        assert forall|k: int| 0 <= k < front.len() implies !(#[trigger] front[k] is OpenRound) by {
            assert(front[k] == ops[k]);
        }
        lemma_blocked_stays(v, user, i, front);
        assert(!(ops[ops.len() - 1] is OpenRound));
        lemma_step(run(v, front), ops.last());
        lemma_run(v, ops);
    }
}

/// Opening a round lets a user claim again: where keys remain and the user
/// holds no key that was bound under the round being opened, a claim after
/// the opening succeeds, and the key it returns was unclaimed before, so it
/// is none of the keys claimed earlier.
pub proof fn lemma_rollover_allows_reclaim(v: LedgerView, user: Seq<char>, number: i64)
    requires
        v.wf(),
        unclaimed_count(v.tokens) > 0,
        !claimed_in_round(v, user, number),
    ensures
        match v.opened(number).claim_result(user) {
            Ok(key) => forall|i: int|
                0 <= i < v.tokens.len() && (#[trigger] v.tokens[i]).claim is Some
                    ==> v.tokens[i].value != key,
            Err(_) => false,
        },
{
    let o = v.opened(number);
    v.lemma_opened(number);
    o.lemma_ensured(user);
    let e = o.ensured(user);
    lemma_unclaimed_count(v.tokens);
    lemma_first_index(e.tokens, is_unclaimed());
    assert(e.rounds == o.rounds);
    if e.blocked(user) {
        let i = choose|i: int| 0 <= i < e.tokens.len() && #[trigger] e.holds_active_claim(i, user);
        let c = e.tokens[i].claim->0;
        assert(v.tokens[i].claim == Some(c));
        lemma_first_index(o.users, is_name(user));
        assert(c.user < v.users.len());
        assert(v.users[c.user] == user);
        assert(claimed_in_round(v, user, number));
    }
    let f = e.first_unclaimed();
    assert forall|i: int| 0 <= i < v.tokens.len() && (#[trigger] v.tokens[i]).claim is Some implies v.tokens[i].value
        != e.tokens[f].value by {
        if i < f {
            assert(v.tokens[i].value != v.tokens[f].value);
        } else if f < i {
            assert(v.tokens[f].value != v.tokens[i].value);
        }
    }
}

/// Ingesting keeps every key that was held, and the candidate is then held.
pub proof fn lemma_ingested_holds(v: LedgerView, value: Seq<char>, now: i64, other: Seq<char>)
    ensures
        holds(v.ingested(value, now), other) <==> holds(v, other) || other == value,
        v.token_index(value) < v.tokens.len() <==> holds(v, value),
{
    lemma_first_index(v.tokens, has_value(value));
    let after = v.ingested(value, now);
    let at = v.token_index(value);
    if at < v.tokens.len() {
        assert(v.tokens[at].value == value);
    } else {
        assert forall|i: int| 0 <= i < v.tokens.len() implies (#[trigger] v.tokens[i]).value
            != value by {
            assert(!has_value(value)(v.tokens[i]));
        }
        assert(after.tokens[at].value == value);
        if holds(v, other) {
            let i = choose|i: int| 0 <= i < v.tokens.len() && (#[trigger] v.tokens[i]).value == other;
            assert(after.tokens[i].value == other);
        }
        if holds(after, other) {
            let i = choose|i: int|
                0 <= i < after.tokens.len() && (#[trigger] after.tokens[i]).value == other;
            if i < v.tokens.len() {
                assert(v.tokens[i].value == other);
            }
        }
    }
}

/// What a sync leaves in the inventory: the keys that were held and the
/// candidates, whatever the order of the candidates.
pub proof fn lemma_sync_contents(v: LedgerView, candidates: Seq<Seq<char>>, now: i64, value: Seq<char>)
    ensures
        holds(v.synced(candidates, now), value) <==> holds(v, value) || candidates.contains(value),
    decreases candidates.len(),
{
    if candidates.len() > 0 {
        let front = candidates.drop_last();
        lemma_sync_contents(v, front, now, value);
        lemma_ingested_holds(v.synced(front, now), candidates.last(), now, value);
        if candidates.contains(value) {
            let k = choose|k: int| 0 <= k < candidates.len() && candidates[k] == value;
            if k < front.len() {
                assert(front[k] == value);
            }
        }
        if front.contains(value) {
            let k = choose|k: int| 0 <= k < front.len() && front[k] == value;
            assert(candidates[k] == value);
        }
        assert(candidates[candidates.len() - 1] == candidates.last());
    }
}

/// A sync of candidates that are all held changes nothing.
pub proof fn lemma_sync_of_held(v: LedgerView, candidates: Seq<Seq<char>>, now: i64)
    requires
        forall|k: int| 0 <= k < candidates.len() ==> holds(v, #[trigger] candidates[k]),
    ensures
        v.synced(candidates, now) == v,
    decreases candidates.len(),
{
    if candidates.len() > 0 {
        let front = candidates.drop_last();
        assert forall|k: int| 0 <= k < front.len() implies holds(v, #[trigger] front[k]) by {
            assert(front[k] == candidates[k]);
        }
        lemma_sync_of_held(v, front, now);
        assert(holds(v, candidates[candidates.len() - 1]));
        lemma_ingested_holds(v, candidates.last(), now, candidates.last());
    }
}

/// Ingestion is idempotent: a second sync of the same candidates leaves the
/// ledger as the first one left it, and inserts nothing.
pub proof fn lemma_sync_idempotent(v: LedgerView, candidates: Seq<Seq<char>>, now: i64, again: i64)
    ensures
        v.synced(candidates, now).synced(candidates, again) == v.synced(candidates, now),
{
    let once = v.synced(candidates, now);
    assert forall|k: int| 0 <= k < candidates.len() implies holds(once, #[trigger] candidates[k]) by {
        lemma_sync_contents(v, candidates, now, candidates[k]);
    }
    lemma_sync_of_held(once, candidates, again);
}

/// The active round after a history is the round opened last; where the
/// history opened none, it is the round that was active before.
pub proof fn lemma_active_round_after(v: LedgerView, ops: Seq<Op>)
    requires
        v.wf(),
    ensures
        run(v, ops).wf(),
        active_round(run(v, ops).rounds) == match last_opened(ops) {
            Some(number) => Some(number),
            None => active_round(v.rounds),
        },
    decreases ops.len(),
{
    if ops.len() > 0 {
        lemma_active_round_after(v, ops.drop_last());
        lemma_step(run(v, ops.drop_last()), ops.last());
    }
}

/// Whether row `i` holds the one active round, and its number is `number`.
pub open spec fn only_active(rounds: Seq<Round>, i: int, number: i64) -> bool {
    &&& 0 <= i < rounds.len()
    &&& rounds[i] == (Round { number, status: RoundStatus::Active })
    &&& forall|j: int|
        0 <= j < rounds.len() && (#[trigger] rounds[j]).status == RoundStatus::Active ==> j == i
}

/// Whether no round is active.
pub open spec fn none_active(rounds: Seq<Round>) -> bool {
    forall|j: int| 0 <= j < rounds.len() ==> (#[trigger] rounds[j]).status != RoundStatus::Active
}

/// In a valid ledger the rows of the rounds agree with `active_round`: no
/// row is active where it is `None`, exactly one where it is a number.
pub proof fn lemma_active_rows(v: LedgerView)
    requires
        v.wf(),
    ensures
        match active_round(v.rounds) {
            None => none_active(v.rounds),
            Some(number) => only_active(v.rounds, first_index(v.rounds, is_active()), number),
        },
{
    lemma_first_index(v.rounds, is_active());
    let f = first_index(v.rounds, is_active());
    if f < v.rounds.len() {
        assert(is_active()(v.rounds[f]));
    } else {
        assert forall|j: int| 0 <= j < v.rounds.len() implies (#[trigger] v.rounds[j]).status
            != RoundStatus::Active by {
            assert(!is_active()(v.rounds[j]));
        }
    }
}

/// At most one round is active, always: after any history that starts from
/// the empty ledger, no round is active if none was opened, and exactly one
/// is, the one opened last, if any was.
pub proof fn lemma_active_round_invariant(ops: Seq<Op>)
    ensures
        match last_opened(ops) {
            None => none_active(run(LedgerView::empty(), ops).rounds),
            Some(number) => exists|i: int|
                only_active(run(LedgerView::empty(), ops).rounds, i, number),
        },
{
    let start = LedgerView::empty();
    assert(start.wf());
    lemma_first_index(start.rounds, is_active());
    assert(active_round(start.rounds) is None);
    lemma_active_round_after(start, ops);
    lemma_active_rows(run(start, ops));
}

} // verus!
