//! Movie similarity graph analysis.
//!
//! The crate ingests normalized movie records (title, release year, genre
//! list, critic and audience scores), builds an undirected similarity graph
//! over them, and computes degree centrality, a reachability-count
//! approximation of betweenness centrality, connected-component clusters,
//! and average score-gap aggregates by decade and by genre.
//!
//! All scores and similarity values are fixed-point integers: scores are
//! hundredths of a point on the 0-10 scale, similarity values are fractions
//! of `SIM_SCALE`, and edge weights combine them with weights given in
//! `WEIGHT_SCALE` units.

pub mod analysis;
pub mod data_cleaning;
pub mod graph_builder;
pub mod similarity;
