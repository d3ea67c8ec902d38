//! Error values returned by the buffer and stream operations.
use vstd::prelude::*;

verus! {

/// The input and output sides of a buffer pair differ in length.
#[derive(Clone, Copy, Debug, PartialEq, Eq)]
pub struct LengthMismatch;

/// The keystream left before the counter wraps around does not cover the
/// requested data.
#[derive(Clone, Copy, Debug, PartialEq, Eq)]
pub struct StreamCipherError;

} // verus!
