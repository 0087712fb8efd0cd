//! Exact branch-and-bound search for minimum hitting sets of hypergraphs.
//!
//! A hitting set of a hypergraph is a set of nodes that has a member in
//! common with every edge. [`solve::solve`] finds one of minimum size, or,
//! if it is told to stop early, one that is as small as it got.

pub mod clock;
pub mod instance;
pub mod lower_bound;
pub mod reductions;
pub mod report;
pub mod search_space;
pub mod solve;
