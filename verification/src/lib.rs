//! Instant-runoff (ranked-choice) election tabulation, verified.
//!
//! Each ballot ranks candidates from most preferred to least preferred.
//! The tabulator repeatedly counts the ballots currently assigned to each
//! active candidate, declares a winner who holds a strict majority, declares
//! a tie when every remaining candidate holds the same count, and otherwise
//! eliminates all candidates tied for the fewest votes, handing each of their
//! ballots on to its next still-active preference.

pub mod laws;
pub mod model;
pub mod tabulate;

pub use tabulate::find_winners;
