//! Persistent homology of finite point clouds.
//!
//! The crate builds filtered simplicial complexes (Vietoris-Rips) over a
//! point cloud's pairwise-distance matrix and computes persistence intervals
//! by boundary-matrix reduction over GF(2).
//!
//! Filtration levels are totally ordered `u64` keys.  A caller whose
//! filtration is real-valued encodes the levels with any order-preserving
//! map into `u64` (for non-negative IEEE doubles, the bit pattern is such a
//! map) and decodes them again on the way out; every comparison, sort and
//! maximum below depends only on the order of the keys.

pub mod combinatorics;
pub mod homology;
pub mod persistence;
pub mod point_cloud;
pub mod simplicial_complex;
pub mod union_find;
