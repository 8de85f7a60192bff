//! A batch ledger-replay engine: it folds a stream of validated transaction
//! records (deposits, withdrawals, disputes, resolves, chargebacks) into one
//! account snapshot per client, enforcing the balance and dispute invariants
//! along the way.
//!
//! Amounts are plain integers counting fixed-point currency units; the caller
//! chooses the scale (the bundled front end uses ten-thousandths, matching
//! the four decimal places of the output format).

pub mod account;
pub mod laws;
pub mod ledger;
pub mod records;
