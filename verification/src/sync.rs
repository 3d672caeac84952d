//! Ingestion: absorbing a list of candidate keys into the inventory.

use vstd::prelude::*;
use crate::laws::{holds, lemma_sync_contents};
use crate::ledger::Ledger;
use crate::model::{has_value, lemma_first_index, Ingested};

verus! {

/// The candidates as plain values.
pub open spec fn texts(lines: Seq<String>) -> Seq<Seq<char>> {
    Seq::new(lines.len(), |i: int| lines[i]@)
}

/// Ingests every line, first to last, and returns how many were new.
/// A line that the inventory already holds, or that stood earlier in the
/// list, is passed over. Afterwards the inventory holds the keys it held
/// and the lines, whatever their order; no key is removed.
pub fn read_beta_keys_file(ledger: &mut Ledger, lines: &Vec<String>, now: i64) -> (inserted: usize)
    requires
        old(ledger)@.wf(),
    ensures
        final(ledger)@ == old(ledger)@.synced(texts(lines@), now),
        final(ledger)@.wf(),
        inserted == final(ledger)@.tokens.len() - old(ledger)@.tokens.len(),
        forall|value: Seq<char>|
            #[trigger] holds(final(ledger)@, value) <==> holds(old(ledger)@, value) || texts(
                lines@,
            ).contains(value),
{
    let ghost before = ledger@;
    let ghost all = texts(lines@);
    let mut inserted: usize = 0;
    let mut i: usize = 0;
    while i < lines.len()
        invariant
            i <= lines@.len(),
            all == texts(lines@),
            before.wf(),
            ledger@.wf(),
            ledger@ == before.synced(all.take(i as int), now),
            inserted <= i,
            inserted == ledger@.tokens.len() - before.tokens.len(),
        decreases lines@.len() - i,
    {
        let ghost prev = ledger@;
        proof {
            assert(all.take(i + 1).drop_last() =~= all.take(i as int));
            assert(all.take(i + 1).last() == lines@[i as int]@);
            lemma_first_index(prev.tokens, has_value(lines@[i as int]@));
        }
        match ledger.ingest(lines[i].as_str(), now) {
            Ingested::Inserted => {
                inserted += 1;
            },
            Ingested::AlreadyPresent => {},
        }
        i += 1;
    }
    proof {
        assert(all.take(i as int) =~= all);
        assert forall|value: Seq<char>| #[trigger]
            holds(ledger@, value) <==> holds(before, value) || all.contains(value) by {
            lemma_sync_contents(before, all, now, value);
        }
    }
    inserted
}

} // verus!
