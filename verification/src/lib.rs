//! Exact re-derivation of a legacy 32-bit additive pseudo-random generator and
//! of the decisions a remote platform takes from it: whether an account name
//! wins on a calendar date, and at which minute a daily event window opens.

pub mod binary64;
pub mod calendar;
pub mod islandmystic;
pub mod names;
pub mod php5random;
pub mod symol;
