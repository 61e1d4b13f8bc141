//! Matching multi-follow batches against starter packs.
//!
//! A starter pack is a curated list of accounts whose members come and go; a
//! multi-follow batch is a set of accounts that were followed in one action.
//! The library rebuilds the membership of every starter pack as it stood on
//! a cutoff date from the log of membership changes ([`replay`],
//! [`membership_log`]), groups follow records into batches ([`aggregate`]),
//! scores a pack against the accounts of a batch ([`score`]) and ranks the
//! packs of a snapshot for a batch ([`rank`]).
//!
//! Scores are exact fractions ([`ratio`]); nothing in the library rounds.

pub mod ratio;
pub mod fingerprint;
pub mod members;
pub mod decimal;
pub mod calendar;
pub mod score;
pub mod aggregate;
pub mod rank;
pub mod replay;
pub mod membership_log;
