//! Key/value settings: the stored settings of a ledger, and the in-memory
//! mirror that callers read on every request.

use vstd::prelude::*;
use crate::model::{first_index, has_key, lemma_first_index_is, lemma_with_setting, setting_value, settings_wf, with_setting};

verus! {

#[derive(Clone, Debug)]
struct Entry {
    key: String,
    value: String,
}

/// A list of settings with unique keys.
#[derive(Clone, Debug)]
pub struct Settings {
    entries: Vec<Entry>,
}

impl View for Settings {
    type V = Seq<(Seq<char>, Seq<char>)>;

    closed spec fn view(&self) -> Seq<(Seq<char>, Seq<char>)> {
        Seq::new(self.entries@.len(), |i: int| (self.entries@[i].key@, self.entries@[i].value@))
    }
}

impl Settings {
    /// No settings.
    pub fn new() -> (s: Settings)
        ensures
            s@ == Seq::<(Seq<char>, Seq<char>)>::empty(),
            settings_wf(s@),
    {
        let s = Settings { entries: Vec::new() };
        assert(s@ =~= Seq::<(Seq<char>, Seq<char>)>::empty());
        s
    }

    /// The number of settings.
    pub fn len(&self) -> (n: usize)
        ensures
            n == self@.len(),
    {
        self.entries.len()
    }

    fn find(&self, key: &String) -> (i: usize)
        ensures
            i == first_index(self@, has_key(key@)),
            i <= self.entries@.len(),
    {
        let mut i: usize = 0;
        while i < self.entries.len()
            invariant
                i <= self.entries@.len(),
                forall|j: int| 0 <= j < i ==> !#[trigger] has_key(key@)(self@[j]),
            decreases self.entries@.len() - i,
        {
            if self.entries[i].key == *key {
                proof {
                    lemma_first_index_is(self@, has_key(key@), i as int);
                }
                return i;
            }
            i += 1;
        }
        proof {
            lemma_first_index_is(self@, has_key(key@), i as int);
        }
        i
    }

    /// The value under `key`; `None` where the key was never set.
    pub fn get(&self, key: &str) -> (r: Option<String>)
        ensures
            match r {
                Some(s) => setting_value(self@, key@) == Some(s@),
                None => setting_value(self@, key@) is None,
            },
    {
        let owned = key.to_owned();
        let i = self.find(&owned);
        if i < self.entries.len() {
            Some(self.entries[i].value.clone())
        } else {
            None
        }
    }

    /// Sets `key` to `value`, replacing an earlier value.
    pub fn set(&mut self, key: &str, value: &str)
        requires
            settings_wf(old(self)@),
        ensures
            final(self)@ == with_setting(old(self)@, key@, value@),
            settings_wf(final(self)@),
            setting_value(final(self)@, key@) == Some(value@),
    {
        let owned = key.to_owned();
        let i = self.find(&owned);
        let entry = Entry { key: owned, value: value.to_owned() };
        if i < self.entries.len() {
            self.entries.set(i, entry);
        } else {
            self.entries.push(entry);
        }
        proof {
            assert(self@ =~= with_setting(old(self)@, key@, value@));
            lemma_with_setting(old(self)@, key@, value@);
        }
    }

    /// The key and the value of the entry in row `i`.
    pub fn entry(&self, i: usize) -> (r: (String, String))
        requires
            i < self@.len(),
        ensures
            (r.0@, r.1@) == self@[i as int],
    {
        (self.entries[i].key.clone(), self.entries[i].value.clone())
    }
}

} // verus!
