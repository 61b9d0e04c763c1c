//! Instant-runoff vote tabulation over a dense rank matrix.
//!
//! A [`ballot::Ballot`] holds an ordered candidate list and a flat,
//! row-major table of every voter's ranks. Its `runoff` method plays the
//! election round by round: each round tallies first-place votes, removes
//! the current plurality *leader* (leftmost column on a tie), re-ranks the
//! remaining candidates in every row, and reports the round.
//!
//! Note on naming: because each round removes the current leader, the
//! overall winner is the first round reported, not the last. This is the
//! opposite of textbook instant-runoff elimination and is intentional.

pub mod adapter;
pub mod ballot;
pub mod laws;
pub mod model;

pub use ballot::Ballot;
