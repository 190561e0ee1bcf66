//! Complex-matrix kernels for the search of the separable state closest to a
//! target density matrix, over exact Gaussian integers (complex numbers with
//! 32-bit integer parts), with their algebraic laws proved:
//!
//! - `complex`: the scalar type and its exact arithmetic;
//! - `matrix`: trace inner product, projector, Kronecker product, matrix
//!   product, conjugate transpose and similarity transform;
//! - `tensor`: the embedding of a local operator into the tensor-product
//!   space and the tensor product of per-subsystem state vectors;
//! - `laws` and `trace`: the identities those kernels satisfy;
//! - `state`: the initial certificate and cached scalars of a search, the
//!   acceptance test of a candidate and the commit of an improvement;
//! - `optimize`: the greedy per-subsystem rotation ascent;
//! - `backend`: the epoch driver and its log of corrections;
//! - `bench`: timing of repeated runs.

pub mod complex;
pub mod matrix;
pub mod tensor;
pub mod laws;
pub mod trace;
pub mod bench;
pub mod state;
pub mod optimize;
pub mod backend;
