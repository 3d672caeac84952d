//! The mathematical model of the ledger: what a ledger is as plain sequences,
//! and what each operation makes of it.

use vstd::prelude::*;

verus! {

/// The lifecycle state of a round.
#[derive(Clone, Copy, Debug, PartialEq, Eq, Structural)]
pub enum RoundStatus {
    /// Claims are bound to this round.
    Active,
    /// The round is over.
    Completed,
}

/// A numbered distribution window.
#[derive(Clone, Copy, Debug, PartialEq, Eq, Structural)]
pub struct Round {
    pub number: i64,
    pub status: RoundStatus,
}

/// The record of a claim: who took the key, in which round, and when.
/// `round` is `None` when no round was active at the time of the claim.
#[derive(Clone, Copy, Debug, PartialEq, Eq, Structural)]
pub struct Claim {
    pub user: usize,
    pub round: Option<i64>,
    pub at: i64,
}

/// Why a claim did not hand out a key.
#[derive(Clone, Copy, Debug, PartialEq, Eq, Structural)]
pub enum ClaimError {
    /// The user already holds a key of the active round; keys remain.
    AlreadyClaimedThisRound,
    /// No unclaimed key is left.
    PoolExhausted,
    /// The durable store could not commit the change.
    TransactionFailed,
    /// The durable store could not be reached.
    StorageUnavailable,
}

/// Why a key could not be bound to a user.
#[derive(Clone, Copy, Debug, PartialEq, Eq, Structural)]
pub enum BindError {
    /// The inventory does not hold the key.
    TokenNotFound,
    /// The key already carries a claim.
    AlreadyClaimed,
    /// No user has the given id.
    UnknownUser,
    /// No round of the given number was ever opened.
    UnknownRound,
}

/// What ingesting one candidate did.
#[derive(Clone, Copy, Debug, PartialEq, Eq, Structural)]
pub enum Ingested {
    /// The candidate was new and is now held, unclaimed.
    Inserted,
    /// The inventory already held the candidate; nothing changed.
    AlreadyPresent,
}

/// A claim as a plain value.
pub struct ClaimView {
    pub user: int,
    pub round: Option<i64>,
    pub at: i64,
}

impl View for Claim {
    type V = ClaimView;

    open spec fn view(&self) -> ClaimView {
        ClaimView { user: self.user as int, round: self.round, at: self.at }
    }
}

/// A key as a plain value.
pub struct TokenView {
    pub value: Seq<char>,
    pub added_at: i64,
    pub claim: Option<ClaimView>,
}

/// A ledger as plain values. Rows stand in insertion order; a user's id is
/// the position of its name in `users`.
pub struct LedgerView {
    pub tokens: Seq<TokenView>,
    pub users: Seq<Seq<char>>,
    pub rounds: Seq<Round>,
    pub config: Seq<(Seq<char>, Seq<char>)>,
}

/// The least index at or after `from` whose element satisfies `p`, or the
/// length of `s` if there is none.
pub open spec fn first_index_from<T>(s: Seq<T>, p: spec_fn(T) -> bool, from: int) -> int
    decreases s.len() - from,
{
    if from < 0 || from >= s.len() {
        s.len() as int
    } else if p(s[from]) {
        from
    } else {
        first_index_from(s, p, from + 1)
    }
}

/// The least index whose element satisfies `p`, or the length of `s`.
pub open spec fn first_index<T>(s: Seq<T>, p: spec_fn(T) -> bool) -> int {
    first_index_from(s, p, 0)
}

/// `first_index_from` is the least index at or after `from` that satisfies
/// `p`.
pub proof fn lemma_first_index_from<T>(s: Seq<T>, p: spec_fn(T) -> bool, from: int)
    requires
        0 <= from <= s.len(),
    ensures
        from <= first_index_from(s, p, from) <= s.len(),
        forall|j: int| from <= j < first_index_from(s, p, from) ==> !#[trigger] p(s[j]),
        first_index_from(s, p, from) < s.len() ==> p(s[first_index_from(s, p, from)]),
    decreases s.len() - from,
{
    if from < s.len() && !p(s[from]) {
        lemma_first_index_from(s, p, from + 1);
    }
}

/// `first_index` is the least index that satisfies `p`.
pub proof fn lemma_first_index<T>(s: Seq<T>, p: spec_fn(T) -> bool)
    ensures
        0 <= first_index(s, p) <= s.len(),
        forall|j: int| 0 <= j < first_index(s, p) ==> !#[trigger] p(s[j]),
        first_index(s, p) < s.len() ==> p(s[first_index(s, p)]),
{
    lemma_first_index_from(s, p, 0);
}

/// An index that satisfies `p` while none before it does is `first_index`.
pub proof fn lemma_first_index_is<T>(s: Seq<T>, p: spec_fn(T) -> bool, r: int)
    requires
        0 <= r <= s.len(),
        forall|j: int| 0 <= j < r ==> !#[trigger] p(s[j]),
        r < s.len() ==> p(s[r]),
    ensures
        first_index(s, p) == r,
{
    lemma_first_index(s, p);
    let f = first_index(s, p);
    if f < r {
        assert(p(s[f]));
    } else if r < f {
        assert(p(s[r]));
    }
}

/// The keys whose value is `value`.
pub open spec fn has_value(value: Seq<char>) -> spec_fn(TokenView) -> bool {
    |t: TokenView| t.value == value
}

/// The keys that carry no claim.
pub open spec fn is_unclaimed() -> spec_fn(TokenView) -> bool {
    |t: TokenView| t.claim is None
}

/// The user names equal to `name`.
pub open spec fn is_name(name: Seq<char>) -> spec_fn(Seq<char>) -> bool {
    |u: Seq<char>| u == name
}

/// The rounds numbered `number`.
pub open spec fn has_number(number: i64) -> spec_fn(Round) -> bool {
    |r: Round| r.number == number
}

/// The rounds that are active.
pub open spec fn is_active() -> spec_fn(Round) -> bool {
    |r: Round| r.status == RoundStatus::Active
}

/// The settings stored under `key`.
pub open spec fn has_key(key: Seq<char>) -> spec_fn((Seq<char>, Seq<char>)) -> bool {
    |e: (Seq<char>, Seq<char>)| e.0 == key
}

/// The invariant of a list of settings: no key stands twice.
pub open spec fn settings_wf(entries: Seq<(Seq<char>, Seq<char>)>) -> bool {
    forall|i: int, j: int|
        0 <= i < j < entries.len() ==> (#[trigger] entries[i]).0 != (#[trigger] entries[j]).0
}

/// The value that `entries` hold under `key`, if any.
pub open spec fn setting_value(entries: Seq<(Seq<char>, Seq<char>)>, key: Seq<char>) -> Option<
    Seq<char>,
> {
    let i = first_index(entries, has_key(key));
    if i < entries.len() {
        Some(entries[i].1)
    } else {
        None
    }
}

/// `entries` with `key` set to `value`: in place if the key was there, else
/// as the newest entry.
pub open spec fn with_setting(
    entries: Seq<(Seq<char>, Seq<char>)>,
    key: Seq<char>,
    value: Seq<char>,
) -> Seq<(Seq<char>, Seq<char>)> {
    let at = first_index(entries, has_key(key));
    if at < entries.len() {
        entries.update(at, (key, value))
    } else {
        entries.push((key, value))
    }
}

/// Setting a key keeps the keys unique, and the key then reads as `value`.
pub proof fn lemma_with_setting(
    entries: Seq<(Seq<char>, Seq<char>)>,
    key: Seq<char>,
    value: Seq<char>,
)
    requires
        settings_wf(entries),
    ensures
        settings_wf(with_setting(entries, key, value)),
        setting_value(with_setting(entries, key, value), key) == Some(value),
{
    lemma_first_index(entries, has_key(key));
    let at = first_index(entries, has_key(key));
    let after = with_setting(entries, key, value);
    assert forall|j: int| 0 <= j < at implies !#[trigger] has_key(key)(after[j]) by {
        assert(!has_key(key)(entries[j]));
    }
    assert(has_key(key)(after[at]));
    lemma_first_index_is(after, has_key(key), at);
    assert forall|i: int, j: int| 0 <= i < j < after.len() implies (#[trigger] after[i]).0 != (
    #[trigger] after[j]).0 by {
        if i != at && j != at {
            assert(after[i] == entries[i] && after[j] == entries[j]);
        } else if i == at {
            assert(after[j] == entries[j]);
            if at < entries.len() {
                assert(entries[at].0 == key);
            } 
        } else {
            assert(after[i] == entries[i]);
            assert(!has_key(key)(entries[i]));
        }
    }
}

/// The number of unclaimed keys.
pub open spec fn unclaimed_count(tokens: Seq<TokenView>) -> nat
    decreases tokens.len(),
{
    if tokens.len() == 0 {
        0
    } else {
        unclaimed_count(tokens.drop_last()) + if tokens.last().claim is None {
            1nat
        } else {
            0nat
        }
    }
}

/// Whether a round with this number was ever opened.
pub open spec fn has_round(rounds: Seq<Round>, number: i64) -> bool {
    first_index(rounds, has_number(number)) < rounds.len()
}

/// The number of every row is the number of a round.
pub proof fn lemma_has_round(rounds: Seq<Round>, k: int)
    requires
        0 <= k < rounds.len(),
    ensures
        has_round(rounds, rounds[k].number),
{
    lemma_first_index(rounds, has_number(rounds[k].number));
    assert(has_number(rounds[k].number)(rounds[k]));
}

/// The active round is one of the rounds.
pub proof fn lemma_active_round_known(rounds: Seq<Round>)
    ensures
        match active_round(rounds) {
            Some(number) => has_round(rounds, number),
            None => true,
        },
{
    lemma_first_index(rounds, is_active());
    let f = first_index(rounds, is_active());
    if f < rounds.len() {
        lemma_has_round(rounds, f);
    }
}

/// The number of the active round, if a round is active.
pub open spec fn active_round(rounds: Seq<Round>) -> Option<i64> {
    let i = first_index(rounds, is_active());
    if i < rounds.len() {
        Some(rounds[i].number)
    } else {
        None
    }
}

impl LedgerView {
    /// The ledger with nothing in it.
    pub open spec fn empty() -> LedgerView {
        LedgerView { tokens: Seq::empty(), users: Seq::empty(), rounds: Seq::empty(), config: Seq::empty() }
    }

    /// Whether `claim` names a registered user and, if it names a round, a
    /// round that was opened.
    pub open spec fn knows(self, claim: ClaimView) -> bool {
        &&& 0 <= claim.user < self.users.len()
        &&& match claim.round {
            Some(number) => has_round(self.rounds, number),
            None => true,
        }
    }

    /// The invariant of every ledger: key values, user names, round numbers
    /// and setting keys are unique; at most one round is active; every claim
    /// names a registered user and a round that was opened.
    pub open spec fn wf(self) -> bool {
        &&& forall|i: int, j: int|
            0 <= i < j < self.tokens.len() ==> (#[trigger] self.tokens[i]).value != (
            #[trigger] self.tokens[j]).value
        &&& forall|i: int, j: int|
            0 <= i < j < self.users.len() ==> #[trigger] self.users[i] != #[trigger] self.users[j]
        &&& forall|i: int, j: int|
            0 <= i < j < self.rounds.len() ==> (#[trigger] self.rounds[i]).number != (
            #[trigger] self.rounds[j]).number
        &&& forall|i: int, j: int|
            0 <= i < self.rounds.len() && 0 <= j < self.rounds.len() && (
            #[trigger] self.rounds[i]).status == RoundStatus::Active && (
            #[trigger] self.rounds[j]).status == RoundStatus::Active ==> i == j
        &&& settings_wf(self.config)
        &&& forall|i: int|
            0 <= i < self.tokens.len() ==> match (#[trigger] self.tokens[i]).claim {
                Some(c) => self.knows(c),
                None => true,
            }
    }

    /// Ingesting keeps the invariant.
    pub proof fn lemma_ingested_wf(self, value: Seq<char>, now: i64)
        requires
            self.wf(),
        ensures
            self.ingested(value, now).wf(),
    {
        lemma_first_index(self.tokens, has_value(value));
        let after = self.ingested(value, now);
        if self.token_index(value) == self.tokens.len() {
            assert forall|i: int, j: int| 0 <= i < j < after.tokens.len() implies (
            #[trigger] after.tokens[i]).value != (#[trigger] after.tokens[j]).value by {
                assert(after.tokens[i] == self.tokens[i]);
                if j < self.tokens.len() {
                    assert(after.tokens[j] == self.tokens[j]);
                } else {
                    assert(!has_value(value)(self.tokens[i]));
                }
            }
            assert forall|i: int| 0 <= i < after.tokens.len() implies match (
            #[trigger] after.tokens[i]).claim {
                Some(c) => after.knows(c),
                None => true,
            } by {
                if i < self.tokens.len() {
                    assert(after.tokens[i] == self.tokens[i]);
                }
            }
        }
    }

    /// Registering a user keeps the invariant, and the user is then known.
    pub proof fn lemma_ensured(self, name: Seq<char>)
        requires
            self.wf(),
        ensures
            self.ensured(name).wf(),
            0 <= self.ensured(name).user_index(name) < self.ensured(name).users.len(),
            self.ensured(name).user_index(name) == self.user_index(name),
            self.ensured(name).users[self.user_index(name)] == name,
    {
        lemma_first_index(self.users, is_name(name));
        let after = self.ensured(name);
        lemma_first_index(after.users, is_name(name));
        let at = self.user_index(name);
        if at == self.users.len() {
            assert forall|i: int, j: int| 0 <= i < j < after.users.len() implies 
            #[trigger] after.users[i] != #[trigger] after.users[j] by {
                assert(after.users[i] == self.users[i]);
                if j < self.users.len() {
                    assert(after.users[j] == self.users[j]);
                } else {
                    assert(!is_name(name)(self.users[i]));
                }
            }
            assert forall|j: int| 0 <= j < at implies !#[trigger] is_name(name)(after.users[j]) by {
                assert(!is_name(name)(self.users[j]));
            }
            assert(is_name(name)(after.users[at]));
            lemma_first_index_is(after.users, is_name(name), at);
            assert forall|i: int| 0 <= i < after.tokens.len() implies match (
            #[trigger] after.tokens[i]).claim {
                Some(c) => after.knows(c),
                None => true,
            } by {
                assert(after.tokens[i] == self.tokens[i]);
                if let Some(c) = self.tokens[i].claim {
                    assert(self.knows(c));
                }
            }
        } else {
            assert(is_name(name)(self.users[at]));
        }
    }

    /// Binding an unclaimed key to a known user keeps the invariant.
    pub proof fn lemma_bound_wf(self, i: int, claim: ClaimView)
        requires
            self.wf(),
            0 <= i < self.tokens.len(),
            self.knows(claim),
        ensures
            self.bound(i, claim).wf(),
    {
        let after = self.bound(i, claim);
        assert forall|a: int, b: int| 0 <= a < b < after.tokens.len() implies (
        #[trigger] after.tokens[a]).value != (#[trigger] after.tokens[b]).value by {
            assert(after.tokens[a].value == self.tokens[a].value);
            assert(after.tokens[b].value == self.tokens[b].value);
        }
        assert forall|a: int| 0 <= a < after.tokens.len() implies match (
        #[trigger] after.tokens[a]).claim {
            Some(c) => after.knows(c),
            None => true,
        } by {
            if a != i {
                assert(after.tokens[a] == self.tokens[a]);
            }
        }
    }

    /// Opening a round keeps the invariant and leaves exactly that round
    /// active.
    pub proof fn lemma_opened(self, number: i64)
        requires
            self.wf(),
        ensures
            self.opened(number).wf(),
            active_round(self.opened(number).rounds) == Some(number),
            forall|i: int|
                0 <= i < self.opened(number).rounds.len() ==> ((
                #[trigger] self.opened(number).rounds[i]).status == RoundStatus::Active <==> self.opened(
                    number,
                ).rounds[i].number == number),
    {
        let done = Seq::new(
            self.rounds.len(),
            |i: int| Round { number: self.rounds[i].number, status: RoundStatus::Completed },
        );
        let at = first_index(done, has_number(number));
        lemma_first_index(done, has_number(number));
        let after = self.opened(number).rounds;
        assert forall|i: int| 0 <= i < after.len() implies ((#[trigger] after[i]).status
            == RoundStatus::Active <==> after[i].number == number) by {
            if i != at {
                assert(after[i] == done[i]);
                if i < at {
                    assert(!has_number(number)(done[i]));
                } else {
                    assert(done[i].number == self.rounds[i].number);
                    assert(done[at].number == self.rounds[at].number);
                }
            }
        }
        assert forall|i: int, j: int| 0 <= i < j < after.len() implies (#[trigger] after[i]).number
            != (#[trigger] after[j]).number by {
            if i == at {
                assert(after[j] == done[j]);
                assert(done[at].number == self.rounds[at].number);
            } else if j == at {
                assert(after[i] == done[i]);
                assert(!has_number(number)(done[i]));
            } else {
                assert(after[i] == done[i] && after[j] == done[j]);
            }
        }
        assert forall|j: int| 0 <= j < at implies !#[trigger] is_active()(after[j]) by {
            assert(after[j] == done[j]);
        }
        assert(is_active()(after[at]));
        lemma_first_index_is(after, is_active(), at);
        assert forall|i: int| 0 <= i < self.tokens.len() implies match (
        #[trigger] self.opened(number).tokens[i]).claim {
            Some(c) => self.opened(number).knows(c),
            None => true,
        } by {
            if let Some(c) = self.tokens[i].claim {
                assert(self.knows(c));
                if let Some(r) = c.round {
                    lemma_first_index(self.rounds, has_number(r));
                    let k = first_index(self.rounds, has_number(r));
                    assert(has_number(r)(self.rounds[k]));
                    assert(done[k].number == r);
                    if k == at {
                        assert(has_number(number)(done[at]));
                    } else {
                        assert(after[k] == done[k]);
                    }
                    assert(after[k].number == r);
                    lemma_has_round(after, k);
                }
            }
        }
    }

    /// In a valid ledger a key's value finds the key's own row.
    pub proof fn lemma_token_index_of_row(self, i: int)
        requires
            self.wf(),
            0 <= i < self.tokens.len(),
        ensures
            self.token_index(self.tokens[i].value) == i,
    {
        let p = has_value(self.tokens[i].value);
        assert forall|j: int| 0 <= j < i implies !#[trigger] p(self.tokens[j]) by {}
        assert(p(self.tokens[i]));
        lemma_first_index_is(self.tokens, p, i);
    }

    /// The row of the key `value`, or the number of keys if it is not held.
    pub open spec fn token_index(self, value: Seq<char>) -> int {
        first_index(self.tokens, has_value(value))
    }

    /// The id of the user `name`, or the number of users if it is unknown.
    pub open spec fn user_index(self, name: Seq<char>) -> int {
        first_index(self.users, is_name(name))
    }

    /// The row of the first unclaimed key, or the number of keys.
    pub open spec fn first_unclaimed(self) -> int {
        first_index(self.tokens, is_unclaimed())
    }

    /// Whether the key in row `i` is held by `name` under the active round.
    pub open spec fn holds_active_claim(self, i: int, name: Seq<char>) -> bool {
        match self.tokens[i].claim {
            Some(c) => 0 <= c.user < self.users.len() && self.users[c.user] == name
                && c.round is Some && c.round == active_round(self.rounds),
            None => false,
        }
    }

    /// Whether `name` already holds a key of the active round.
    pub open spec fn blocked(self, name: Seq<char>) -> bool {
        exists|i: int| 0 <= i < self.tokens.len() && #[trigger] self.holds_active_claim(i, name)
    }

    /// The value stored under `key`, if any.
    pub open spec fn config_value(self, key: Seq<char>) -> Option<Seq<char>> {
        setting_value(self.config, key)
    }

    /// The ledger in which `name` is registered: unchanged if it was, else
    /// with `name` as the newest user.
    pub open spec fn ensured(self, name: Seq<char>) -> LedgerView {
        if self.user_index(name) < self.users.len() {
            self
        } else {
            LedgerView { users: self.users.push(name), ..self }
        }
    }

    /// The ledger in which the key in row `i` carries `claim`.
    pub open spec fn bound(self, i: int, claim: ClaimView) -> LedgerView {
        LedgerView {
            tokens: self.tokens.update(i, TokenView { claim: Some(claim), ..self.tokens[i] }),
            ..self
        }
    }

    /// Whether `claim` can be bound to the key `token`: the key is held and
    /// unclaimed, and the claim names a known user and round.
    pub open spec fn can_bind(self, token: Seq<char>, claim: ClaimView) -> bool {
        &&& self.token_index(token) < self.tokens.len()
        &&& self.tokens[self.token_index(token)].claim is None
        &&& self.knows(claim)
    }

    /// The ledger after an attempt to bind `claim` to the key `token`:
    /// the key carries the claim where that can be, else nothing changed.
    pub open spec fn attached(self, token: Seq<char>, claim: ClaimView) -> LedgerView {
        if self.can_bind(token, claim) {
            self.bound(self.token_index(token), claim)
        } else {
            self
        }
    }

    /// The ledger that holds `value`: unchanged if it did, else with `value`
    /// as the newest key, unclaimed and added at `now`.
    pub open spec fn ingested(self, value: Seq<char>, now: i64) -> LedgerView {
        if self.token_index(value) < self.tokens.len() {
            self
        } else {
            LedgerView {
                tokens: self.tokens.push(TokenView { value, added_at: now, claim: None }),
                ..self
            }
        }
    }

    /// The ledger after every candidate was ingested, first to last.
    pub open spec fn synced(self, candidates: Seq<Seq<char>>, now: i64) -> LedgerView
        decreases candidates.len(),
    {
        if candidates.len() == 0 {
            self
        } else {
            self.synced(candidates.drop_last(), now).ingested(candidates.last(), now)
        }
    }

    /// The ledger after round `number` was opened: every round is completed
    /// but `number`, which is active, replacing an earlier row of that number.
    pub open spec fn opened(self, number: i64) -> LedgerView {
        let done = Seq::new(
            self.rounds.len(),
            |i: int| Round { number: self.rounds[i].number, status: RoundStatus::Completed },
        );
        let row = Round { number, status: RoundStatus::Active };
        let at = first_index(done, has_number(number));
        LedgerView {
            rounds: if at < done.len() {
                done.update(at, row)
            } else {
                done.push(row)
            },
            ..self
        }
    }

    /// The ledger in which `key` is set to `value`.
    pub open spec fn configured(self, key: Seq<char>, value: Seq<char>) -> LedgerView {
        LedgerView { config: with_setting(self.config, key, value), ..self }
    }

    /// What a claim by `name` returns.
    pub open spec fn claim_result(self, name: Seq<char>) -> Result<Seq<char>, ClaimError> {
        let v = self.ensured(name);
        if !v.blocked(name) && v.first_unclaimed() < v.tokens.len() {
            Ok(v.tokens[v.first_unclaimed()].value)
        } else if unclaimed_count(v.tokens) > 0 {
            Err(ClaimError::AlreadyClaimedThisRound)
        } else {
            Err(ClaimError::PoolExhausted)
        }
    }

    /// The ledger after a claim by `name` at `now`: the user is registered,
    /// and where the claim succeeds the first unclaimed key is bound to the
    /// user and to the active round.
    pub open spec fn claimed(self, name: Seq<char>, now: i64) -> LedgerView {
        let v = self.ensured(name);
        if !v.blocked(name) && v.first_unclaimed() < v.tokens.len() {
            v.bound(
                v.first_unclaimed(),
                ClaimView { user: v.user_index(name), round: active_round(v.rounds), at: now },
            )
        } else {
            v
        }
    }

    /// What an administrator's grant returns, whoever the user is.
    pub open spec fn grant_result(self) -> Result<Seq<char>, ClaimError> {
        if self.first_unclaimed() < self.tokens.len() {
            Ok(self.tokens[self.first_unclaimed()].value)
        } else {
            Err(ClaimError::PoolExhausted)
        }
    }

    /// The ledger after an administrator's grant to `name` at `now`:
    /// unchanged if no key is left, else the user is registered and the first
    /// unclaimed key is bound to the user and to the active round.
    pub open spec fn granted(self, name: Seq<char>, now: i64) -> LedgerView {
        if self.first_unclaimed() < self.tokens.len() {
            let v = self.ensured(name);
            v.bound(
                v.first_unclaimed(),
                ClaimView { user: v.user_index(name), round: active_round(v.rounds), at: now },
            )
        } else {
            self
        }
    }
}

} // verus!
