//! The algorithm layer: exact average path length, the HyperBall update
//! round, Karger-Stein minimum cut, and the clustering-coefficient
//! sampler.

pub mod apl;
pub mod clustering_coef;
pub mod min_cut;
