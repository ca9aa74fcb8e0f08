//! Travelling Salesman Problem solving over routes of city indices.
//!
//! The library holds the combinatorial core of the solvers: routes and the
//! moves that turn one route into a neighbouring one, the construction of a
//! symmetric distance table and the walk that sums it along a route, the
//! candidate model that a local-search driver explores, and the exhaustive
//! search over every tour anchored at city 0. Route lengths are handed in by
//! the caller as cost keys, so every decision the library takes is verified
//! for every key the caller may give.
pub mod brute_force;
pub mod candidate;
pub mod cost;
pub mod matrix;
mod random;
pub mod route;
