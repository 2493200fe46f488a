//! A dynamically-typed, N-dimensional numeric array value with deferred
//! (lazy) slicing.
//!
//! Indexing or slicing an array does not copy data: it produces a new
//! lightweight handle that shares the underlying buffer and remembers an
//! ordered chain of slice operations.  The chain is composed and applied
//! only when the data is actually read or written.
//!
//! Elements are kept as raw bit patterns (`u32` for the 32-bit kind,
//! `u64` for the 64-bit kind); interpreting those bits numerically is the
//! embedding host's concern, so every structural operation here (shape
//! computation, slice composition, bounds checking, element movement) is
//! proved exact, while elementwise numeric kernels are supplied by the
//! caller as closures.

pub mod dtype;
pub mod error;
pub mod descriptor;
pub mod shape;
pub mod view;
pub mod buffer;
pub mod value;
pub mod handle;
pub mod laws;
pub mod fmt;
