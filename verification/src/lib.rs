//! A small feed-forward neural-network trainer: a dense two-dimensional
//! matrix engine and a multilayer perceptron that runs forward inference,
//! gradient-descent backpropagation, and persistence of learned parameters.
//!
//! The library is generic over the scalar type `T`. Scalar arithmetic and the
//! activation function are supplied by the caller as closures, so the engine
//! itself is independent of the numeric representation the caller chooses.
use vstd::prelude::*;

pub mod matrix;
pub mod network;

verus! {

/// The error conditions a library operation can report.
#[derive(Clone, Copy, Debug, PartialEq, Eq, Structural)]
pub enum Error {
    /// Two operands' dimensions are incompatible for the requested
    /// operation, or an input/target length disagrees with the topology.
    /// Carries the expected and the actual length.
    ShapeMismatch { expected: usize, actual: usize },
    /// A persistence destination could not be opened, created, read or
    /// written. Never produced by the verified engine itself; reserved for
    /// the I/O shell around it.
    IoFailure,
    /// A persisted parameter record is malformed: it does not list exactly
    /// one matrix per layer transition.
    ParseError,
}

} // verus!
