//! Local-search improvement of travelling-salesman tours.
//!
//! A [`TSP`] problem owns a symmetric table of pairwise point distances,
//! held as plain `u64` values (callers working in real coordinates scale
//! them to a fixed-point grid first). Two optimizers improve a starting
//! tour: `do_2opt` repeatedly reverses a segment between two removed
//! edges, and `do_3opt` removes three edges and reconnects the pieces by
//! the cheapest of seven reconnections. Both return a tour together with
//! its exact cyclic length and stop at a local optimum: every accepted
//! move strictly shortens the tour, so the search terminates.

use vstd::prelude::*;

pub mod cost;
pub mod matrix;
pub mod segment;
pub mod three_opt;
pub mod tour;
pub mod two_opt;

pub use matrix::TSP;
pub use matrix::isqrt;
pub use segment::exchange;

verus! {

/// Why an optimizer call was rejected before any work was done.
///
/// Validation runs before optimization, and the optimizers are verified
/// never to index out of bounds afterwards, so a rejected starting tour is
/// the only failure an optimizer call can report.
#[derive(Clone, Copy, Debug, PartialEq, Eq, Structural)]
pub enum TspError {
    /// The supplied starting tour is not a permutation of `0 .. n-1`.
    InvalidTour,
}

} // verus!
