//! A numerically stable softmax kernel for batches of fixed-width feature
//! vectors, meant as a drop-in replacement for a host tensor engine's
//! built-in softmax on the trailing axis.
//!
//! The crate is organized leaf to root: [`kernel`] holds the per-row
//! computation and the serial and parallel batch drivers, generic over the
//! scalar type and the scalar operations, so that every partitioning and
//! dataflow decision is verified for any scalars a caller supplies;
//! [`adapter`] validates a host tensor's shape, axis selector and memory
//! layout and runs the kernel over the extracted storage region; [`error`]
//! carries the caller-contract violations that the adapter and the drivers
//! surface.

pub mod adapter;
pub mod error;
pub mod kernel;

pub use error::SoftmaxError;
