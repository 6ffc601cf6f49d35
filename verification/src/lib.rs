//! Computation of the t-minute city: the set of locations in a weighted,
//! undirected location graph that lie within a travel-cost threshold of at
//! least one location of every service category present in the data.
//!
//! The pieces, leaves first: `records` holds the input records; `paths`
//! and `overlay` state what reachability and the per-category virtual
//! source mean; `graph` and `heap` hold the adjacency structure and the
//! priority queue behind narrow trusted wrappers; `labels` groups the
//! locations by category; `accumulator` keeps the per-location reach
//! flags; `search` is the threshold-truncated shortest-path search;
//! `city` builds the graph and orchestrates the per-category searches;
//! `laws` states and proves the properties that hold of the whole.

pub mod errors;
pub mod records;
pub mod paths;
pub mod overlay;
pub mod graph;
pub mod heap;
pub mod labels;
pub mod accumulator;
pub mod search;
pub mod city;
pub mod laws;
