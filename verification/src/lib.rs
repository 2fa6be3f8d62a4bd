//! Exact triangular factorization of a sparse matrix that is only reachable
//! row by row, restricted to a chosen list of rows and a chosen set of
//! columns.
//!
//! Coefficients live in the ring of integers modulo a fixed modulus; row
//! keys (major keys) and column keys (minor keys) are `u64` identifiers,
//! ordered as numbers.
//!
//! - [`ring`]: the coefficient ring.
//! - [`matrix`]: the row oracle, and a matrix held in memory.
//! - [`heap`]: the queue of candidate keys.
//! - [`csm`]: the compressed matrix of row operations.
//! - [`chx`]: the indexing of the pivots.
//! - [`decomp_row_use_pairs`]: the sparse accumulator and the factorization.

pub mod ring;
pub mod heap;
pub mod csm;
mod trim;
pub mod matrix;
pub mod chx;
pub mod decomp_row_use_pairs;
