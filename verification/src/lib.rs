//! A support-vector classifier trained by sequential minimal optimization,
//! together with the small numeric toolkit it is built on: an exact
//! fixed-point scalar, dense matrices, QR decomposition, distance metrics,
//! k-nearest-neighbour search and k-means clustering.
//!
//! All numeric state is held in [`fixed::Fixed`], a deterministic fixed-point
//! scalar, so every algorithm here has an exact mathematical meaning.

pub mod distance;
pub mod error;
pub mod euclidian;
pub mod fixed;
pub mod kernel;
pub mod kmeans;
pub mod linear_search;
pub mod matrix;
pub mod minkowski;
pub mod neighbour;
pub mod qr;
pub mod rng;
pub mod svc;
pub mod tree;
