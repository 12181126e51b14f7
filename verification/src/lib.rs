//! Procedural generation of branching, tree-like structures by space
//! colonization: a density-weighted sampler seeds attraction targets, an
//! iterative growth step advances branch tips toward nearby targets, a
//! pruning pass retires dominated branches, and a reverse-pass weight
//! recomputation derives each node's subtree size.
//!
//! All geometry is exact integer arithmetic: positions are pairs of `i64`
//! coordinates in caller-chosen units, distances are compared through their
//! squares, and fractional configuration values (blend factors, ratios,
//! exponents) are carried as explicit rationals.

pub mod config;
pub mod density;
pub mod geom;
pub mod rng;
pub mod shade;
pub mod tree;
