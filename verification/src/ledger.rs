//! The ledger itself: key inventory, user registry, rounds and stored
//! settings, with the operations on each.

use vstd::prelude::*;
use crate::decimal::{decimal, round_text};
use crate::model::{
    active_round, first_index, has_number, has_value, is_active, is_name, is_unclaimed,
    lemma_first_index, lemma_first_index_is, settings_wf, unclaimed_count, with_setting,
    BindError, Claim, Ingested, LedgerView, Round, RoundStatus, TokenView,
};
use crate::settings::Settings;

verus! {

#[derive(Clone, Debug)]
struct Token {
    value: String,
    added_at: i64,
    claim: Option<Claim>,
}

impl View for Token {
    type V = TokenView;

    closed spec fn view(&self) -> TokenView {
        TokenView {
            value: self.value@,
            added_at: self.added_at,
            claim: match self.claim {
                Some(c) => Some(c@),
                None => None,
            },
        }
    }
}

/// The ledger. Its view is a [`LedgerView`]; every operation keeps
/// [`LedgerView::wf`].
#[derive(Clone, Debug)]
pub struct Ledger {
    tokens: Vec<Token>,
    users: Vec<String>,
    rounds: Vec<Round>,
    config: Settings,
}

impl View for Ledger {
    type V = LedgerView;

    closed spec fn view(&self) -> LedgerView {
        LedgerView {
            tokens: Seq::new(self.tokens@.len(), |i: int| self.tokens@[i]@),
            users: Seq::new(self.users@.len(), |i: int| self.users@[i]@),
            rounds: self.rounds@,
            config: self.config@,
        }
    }
}

impl Ledger {
    /// A ledger with no key, no user, no round and no setting.
    pub fn new() -> (l: Ledger)
        ensures
            l@ == LedgerView::empty(),
            l@.wf(),
    {
        let l = Ledger { tokens: Vec::new(), users: Vec::new(), rounds: Vec::new(), config: Settings::new() };
        assert(l@.tokens =~= Seq::empty());
        assert(l@.users =~= Seq::empty());
        assert(l@.rounds =~= Seq::empty());
        l
    }

    fn find_token(&self, value: &String) -> (i: usize)
        ensures
            i == self@.token_index(value@),
            i <= self.tokens@.len(),
    {
        let mut i: usize = 0;
        while i < self.tokens.len()
            invariant
                i <= self.tokens@.len(),
                forall|j: int| 0 <= j < i ==> !#[trigger] has_value(value@)(self@.tokens[j]),
            decreases self.tokens@.len() - i,
        {
            if self.tokens[i].value == *value {
                proof {
                    lemma_first_index_is(self@.tokens, has_value(value@), i as int);
                }
                return i;
            }
            i += 1;
        }
        proof {
            lemma_first_index_is(self@.tokens, has_value(value@), i as int);
        }
        i
    }

    fn find_user(&self, name: &String) -> (i: usize)
        ensures
            i == self@.user_index(name@),
            i <= self.users@.len(),
    {
        let mut i: usize = 0;
        while i < self.users.len()
            invariant
                i <= self.users@.len(),
                forall|j: int| 0 <= j < i ==> !#[trigger] is_name(name@)(self@.users[j]),
            decreases self.users@.len() - i,
        {
            if self.users[i] == *name {
                proof {
                    lemma_first_index_is(self@.users, is_name(name@), i as int);
                }
                return i;
            }
            i += 1;
        }
        proof {
            lemma_first_index_is(self@.users, is_name(name@), i as int);
        }
        i
    }

    fn find_round(&self, number: i64) -> (i: usize)
        ensures
            i == first_index(self@.rounds, has_number(number)),
            i <= self.rounds@.len(),
    {
        let mut i: usize = 0;
        while i < self.rounds.len() && self.rounds[i].number != number
            invariant
                i <= self.rounds@.len(),
                forall|j: int| 0 <= j < i ==> !#[trigger] has_number(number)(self@.rounds[j]),
            decreases self.rounds@.len() - i,
        {
            i += 1;
        }
        proof {
            lemma_first_index_is(self@.rounds, has_number(number), i as int);
        }
        i
    }

    fn find_unclaimed(&self) -> (i: usize)
        ensures
            i == self@.first_unclaimed(),
            i <= self.tokens@.len(),
    {
        let mut i: usize = 0;
        while i < self.tokens.len()
            invariant
                i <= self.tokens@.len(),
                forall|j: int| 0 <= j < i ==> !#[trigger] is_unclaimed()(self@.tokens[j]),
            decreases self.tokens@.len() - i,
        {
            if self.tokens[i].claim.is_none() {
                proof {
                    lemma_first_index_is(self@.tokens, is_unclaimed(), i as int);
                }
                return i;
            }
            i += 1;
        }
        proof {
            lemma_first_index_is(self@.tokens, is_unclaimed(), i as int);
        }
        i
    }

    /// The number of keys, claimed or not.
    pub fn token_count(&self) -> (n: usize)
        ensures
            n == self@.tokens.len(),
    {
        self.tokens.len()
    }

    /// The value of the key in row `i`.
    pub fn token_value(&self, i: usize) -> (s: String)
        requires
            i < self@.tokens.len(),
        ensures
            s@ == self@.tokens[i as int].value,
    {
        self.tokens[i].value.clone()
    }

    /// The claim on the key in row `i`, if it was claimed.
    pub fn token_claim(&self, i: usize) -> (c: Option<Claim>)
        requires
            i < self@.tokens.len(),
        ensures
            match c {
                Some(c) => self@.tokens[i as int].claim == Some(c@),
                None => self@.tokens[i as int].claim is None,
            },
    {
        self.tokens[i].claim
    }

    /// When the key in row `i` was added.
    pub fn token_added_at(&self, i: usize) -> (t: i64)
        requires
            i < self@.tokens.len(),
        ensures
            t == self@.tokens[i as int].added_at,
    {
        self.tokens[i].added_at
    }

    /// The number of registered users.
    pub fn user_count(&self) -> (n: usize)
        ensures
            n == self@.users.len(),
    {
        self.users.len()
    }

    /// The name of the user with id `id`.
    pub fn user_name(&self, id: usize) -> (s: String)
        requires
            id < self@.users.len(),
        ensures
            s@ == self@.users[id as int],
    {
        self.users[id].clone()
    }

    /// The row of the key `value`; `None` where the inventory does not hold it.
    pub fn token_row(&self, value: &str) -> (r: Option<usize>)
        ensures
            match r {
                Some(i) => i == self@.token_index(value@) && i < self@.tokens.len(),
                None => self@.token_index(value@) == self@.tokens.len(),
            },
    {
        let owned = value.to_owned();
        let i = self.find_token(&owned);
        if i < self.tokens.len() {
            Some(i)
        } else {
            None
        }
    }

    /// The id of the user `name`; `None` where the name is not registered.
    pub fn user_id(&self, name: &str) -> (r: Option<usize>)
        ensures
            match r {
                Some(i) => i == self@.user_index(name@) && i < self@.users.len(),
                None => self@.user_index(name@) == self@.users.len(),
            },
    {
        let owned = name.to_owned();
        let i = self.find_user(&owned);
        if i < self.users.len() {
            Some(i)
        } else {
            None
        }
    }

    /// The number of rounds that were ever opened.
    pub fn round_count(&self) -> (n: usize)
        ensures
            n == self@.rounds.len(),
    {
        self.rounds.len()
    }

    /// The round in row `i`.
    pub fn round(&self, i: usize) -> (r: Round)
        requires
            i < self@.rounds.len(),
        ensures
            r == self@.rounds[i as int],
    {
        self.rounds[i]
    }

    /// The stored settings.
    pub fn settings(&self) -> (s: &Settings)
        ensures
            s@ == self@.config,
    {
        &self.config
    }

    /// Adds `candidate` to the inventory unless it is already held.
    pub fn ingest(&mut self, candidate: &str, now: i64) -> (r: Ingested)
        requires
            old(self)@.wf(),
        ensures
            final(self)@ == old(self)@.ingested(candidate@, now),
            final(self)@.wf(),
            r == Ingested::Inserted <==> old(self)@.token_index(candidate@) == old(self)@.tokens.len(),
            r == Ingested::AlreadyPresent <==> old(self)@.token_index(candidate@) < old(
                self,
            )@.tokens.len(),
    {
        let owned = candidate.to_owned();
        let i = self.find_token(&owned);
        proof {
            old(self)@.lemma_ingested_wf(candidate@, now);
        }
        if i < self.tokens.len() {
            Ingested::AlreadyPresent
        } else {
            self.tokens.push(Token { value: owned, added_at: now, claim: None });
            proof {
                assert(self@.tokens =~= old(self)@.ingested(candidate@, now).tokens);
                assert(self@.users =~= old(self)@.users);
            }
            Ingested::Inserted
        }
    }

    /// Registers `name` unless it is registered, and returns its id.
    pub fn ensure(&mut self, name: &str) -> (id: usize)
        requires
            old(self)@.wf(),
        ensures
            final(self)@ == old(self)@.ensured(name@),
            final(self)@.wf(),
            id == final(self)@.user_index(name@),
            id < final(self)@.users.len(),
    {
        let owned = name.to_owned();
        let i = self.find_user(&owned);
        proof {
            old(self)@.lemma_ensured(name@);
        }
        if i >= self.users.len() {
            self.users.push(owned);
            proof {
                assert(self@.users =~= old(self)@.users.push(name@));
                assert(self@.tokens =~= old(self)@.tokens);
            }
        }
        i
    }

    /// The value of the first unclaimed key, unless `user` already holds a
    /// key of the active round or no key is left.
    pub fn select_one_unclaimed_excluding(&self, user: &str) -> (r: Option<String>)
        requires
            self@.wf(),
        ensures
            match r {
                Some(s) => !self@.blocked(user@) && self@.first_unclaimed() < self@.tokens.len()
                    && s@ == self@.tokens[self@.first_unclaimed()].value,
                None => self@.blocked(user@) || self@.first_unclaimed() == self@.tokens.len(),
            },
    {
        let owned = user.to_owned();
        let active = get_round(self);
        let mut i: usize = 0;
        while i < self.tokens.len()
            invariant
                i <= self.tokens@.len(),
                self@.wf(),
                owned@ == user@,
                active == active_round(self@.rounds),
                forall|j: int| 0 <= j < i ==> !#[trigger] self@.holds_active_claim(j, user@),
            decreases self.tokens@.len() - i,
        {
            match self.tokens[i].claim {
                Some(c) => {
                    assert(self@.tokens[i as int].claim == Some(c@));
                    assert(self@.knows(c@));
                    let same_round = match (c.round, active) {
                        (Some(a), Some(b)) => a == b,
                        _ => false,
                    };
                    if same_round && self.users[c.user] == owned {
                        assert(self@.holds_active_claim(i as int, user@));
                        return None;
                    }
                },
                None => {},
            }
            i += 1;
        }
        self.select_one_unclaimed()
    }

    /// The value of the first unclaimed key, if a key is left.
    pub fn select_one_unclaimed(&self) -> (r: Option<String>)
        ensures
            match r {
                Some(s) => self@.first_unclaimed() < self@.tokens.len() && s@
                    == self@.tokens[self@.first_unclaimed()].value,
                None => self@.first_unclaimed() == self@.tokens.len(),
            },
    {
        let i = self.find_unclaimed();
        if i < self.tokens.len() {
            Some(self.tokens[i].value.clone())
        } else {
            None
        }
    }

    /// Binds the key `token` to the user `user` under `round` at `now`.
    /// Fails, and changes nothing, if the key is not held, is already
    /// claimed, the user id is unknown, or no round of that number was
    /// opened.
    pub fn bind(&mut self, token: &str, user: usize, round: Option<i64>, now: i64) -> (r: Result<
        (),
        BindError,
    >)
        requires
            old(self)@.wf(),
        ensures
            final(self)@.wf(),
            final(self)@ == old(self)@.attached(token@, (Claim { user, round, at: now })@),
            r is Ok <==> old(self)@.can_bind(token@, (Claim { user, round, at: now })@),
            match r {
                Ok(_) => true,
                Err(e) => {
                    let i = old(self)@.token_index(token@);
                    let held = i < old(self)@.tokens.len();
                    let free = held && old(self)@.tokens[i].claim is None;
                    &&& e == BindError::TokenNotFound <==> !held
                    &&& e == BindError::AlreadyClaimed <==> held && !free
                    &&& e == BindError::UnknownUser <==> free && user >= old(self)@.users.len()
                    &&& e == BindError::UnknownRound <==> free && user < old(self)@.users.len()
                },
            },
    {
        let owned = token.to_owned();
        let i = self.find_token(&owned);
        if i >= self.tokens.len() {
            return Err(BindError::TokenNotFound);
        }
        if self.tokens[i].claim.is_some() {
            return Err(BindError::AlreadyClaimed);
        }
        if user >= self.users.len() {
            return Err(BindError::UnknownUser);
        }
        if let Some(number) = round {
            if self.find_round(number) >= self.rounds.len() {
                return Err(BindError::UnknownRound);
            }
        }
        let claim = Claim { user, round, at: now };
        let added_at = self.tokens[i].added_at;
        self.tokens.set(i, Token { value: owned, added_at, claim: Some(claim) });
        proof {
            lemma_first_index(old(self)@.tokens, has_value(token@));
            assert(self@.tokens =~= old(self)@.bound(i as int, claim@).tokens);
            assert(self@.users =~= old(self)@.users);
            old(self)@.lemma_bound_wf(i as int, claim@);
        }
        Ok(())
    }
}

/// The number of unclaimed keys.
pub fn remaining_unclaimed(ledger: &Ledger) -> (n: usize)
    ensures
        n == unclaimed_count(ledger@.tokens),
{
    let mut n: usize = 0;
    let mut i: usize = 0;
    while i < ledger.tokens.len()
        invariant
            i <= ledger.tokens@.len(),
            n <= i,
            n == unclaimed_count(ledger@.tokens.take(i as int)),
        decreases ledger.tokens@.len() - i,
    {
        proof {
            assert(ledger@.tokens.take(i + 1).drop_last() =~= ledger@.tokens.take(i as int));
        }
        if ledger.tokens[i].claim.is_none() {
            n += 1;
        }
        i += 1;
    }
    proof {
        assert(ledger@.tokens.take(i as int) =~= ledger@.tokens);
    }
    n
}

/// The number of the active round; `None` where no round was ever opened.
pub fn get_round(ledger: &Ledger) -> (r: Option<i64>)
    ensures
        r == active_round(ledger@.rounds),
{
    let mut i: usize = 0;
    while i < ledger.rounds.len()
        invariant
            i <= ledger.rounds@.len(),
            forall|j: int| 0 <= j < i ==> !#[trigger] is_active()(ledger@.rounds[j]),
        decreases ledger.rounds@.len() - i,
    {
        if ledger.rounds[i].status == RoundStatus::Active {
            proof {
                lemma_first_index_is(ledger@.rounds, is_active(), i as int);
            }
            return Some(ledger.rounds[i].number);
        }
        i += 1;
    }
    proof {
        lemma_first_index_is(ledger@.rounds, is_active(), i as int);
    }
    None
}

/// Stores `value` under `key` and mirrors it: the stored settings first, then
/// the caller's settings mirror.
pub fn write_through(ledger: &mut Ledger, cache: &mut Settings, key: &str, value: &str)
    requires
        old(ledger)@.wf(),
        settings_wf(old(cache)@),
    ensures
        final(ledger)@ == old(ledger)@.configured(key@, value@),
        final(ledger)@.wf(),
        final(cache)@ == with_setting(old(cache)@, key@, value@),
        settings_wf(final(cache)@),
{
    set_config_val(ledger, key, value);
    cache.set(key, value);
}

/// Opens round `round`: completes whichever round is active, makes `round`
/// the active round (again, if that number was used before), and records the
/// number under `claim_round` in the caller's settings mirror.
pub fn set_round_db(ledger: &mut Ledger, round: i64, cache: &mut Settings)
    requires
        old(ledger)@.wf(),
        settings_wf(old(cache)@),
    ensures
        final(ledger)@ == old(ledger)@.opened(round),
        final(ledger)@.wf(),
        active_round(final(ledger)@.rounds) == Some(round),
        final(cache)@ == with_setting(old(cache)@, "claim_round"@, decimal(round as int)),
        settings_wf(final(cache)@),
{
    let ghost before = ledger@;
    let ghost done = Seq::new(
        before.rounds.len(),
        |i: int| Round { number: before.rounds[i].number, status: RoundStatus::Completed },
    );
    let n = ledger.rounds.len();
    let mut i: usize = 0;
    while i < n
        invariant
            i <= n,
            n == before.rounds.len(),
            ledger.rounds@.len() == n,
            ledger@.tokens == before.tokens,
            ledger@.users == before.users,
            ledger@.config == before.config,
            done.len() == n,
            forall|j: int|
                0 <= j < n ==> #[trigger] done[j] == (Round {
                    number: before.rounds[j].number,
                    status: RoundStatus::Completed,
                }),
            forall|j: int| 0 <= j < i ==> #[trigger] ledger.rounds@[j] == done[j],
            forall|j: int| i <= j < n ==> #[trigger] ledger.rounds@[j] == before.rounds[j],
        decreases n - i,
    {
        let number = ledger.rounds[i].number;
        ledger.rounds.set(i, Round { number, status: RoundStatus::Completed });
        i += 1;
    }
    assert(ledger.rounds@ =~= done);
    let at = ledger.find_round(round);
    let row = Round { number: round, status: RoundStatus::Active };
    if at < n {
        ledger.rounds.set(at, row);
    } else {
        ledger.rounds.push(row);
    }
    let text = round_text(round);
    cache.set("claim_round", text.as_str());
    proof {
        assert(ledger@.rounds =~= before.opened(round).rounds);
        before.lemma_opened(round);
    }
}

/// The stored value of `key`; `None` where the key was never set.
pub fn get_config_val(ledger: &Ledger, key: &str) -> (r: Option<String>)
    ensures
        match r {
            Some(s) => ledger@.config_value(key@) == Some(s@),
            None => ledger@.config_value(key@) is None,
        },
{
    ledger.config.get(key)
}

/// Stores `value` under `key`, replacing an earlier value.
pub fn set_config_val(ledger: &mut Ledger, key: &str, value: &str)
    requires
        old(ledger)@.wf(),
    ensures
        final(ledger)@ == old(ledger)@.configured(key@, value@),
        final(ledger)@.wf(),
        final(ledger)@.config_value(key@) == Some(value@),
{
    ledger.config.set(key, value);
    proof {
        assert(ledger@.tokens =~= old(ledger)@.tokens);
        assert(ledger@.users =~= old(ledger)@.users);
    }
}

} // verus!
