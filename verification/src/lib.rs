//! Graph analytics on verified data structures: a bit-packed register array,
//! HyperLogLog sketches (byte-backed and compact), graph views (edge list,
//! CSR, adjacency), a disjoint-set family with an undo log, and the
//! Karger-Stein randomized minimum-cut algorithm.

pub mod algorithms;
pub mod graphs;
pub mod hyper_ball;
pub mod util;
