//! A ledger that hands out single-use keys in administrator-controlled rounds.
//!
//! The ledger owns the key inventory, the user registry, the rounds and the
//! stored settings. Every operation takes the ledger by exclusive reference,
//! so each one is atomic with respect to every other: two claims never see
//! the same unclaimed key.
//!
//! - [`model`]: the ledger as plain sequences, and what each operation makes
//!   of it.
//! - [`ledger`]: the ledger itself and the operations on keys, users, rounds
//!   and settings.
//! - [`claims`]: claiming a key, and the administrator's grant.
//! - [`sync`]: ingesting a list of candidate keys.
//! - [`settings`]: key/value settings and their in-memory mirror.
//! - [`eligibility`]: the rule that callers apply before a claim.
//! - [`decimal`]: round numbers as text.
//! - [`laws`]: what holds of every sequence of operations.

pub mod decimal;
pub mod model;
pub mod settings;
pub mod ledger;
pub mod claims;
pub mod sync;
pub mod laws;
pub mod eligibility;
