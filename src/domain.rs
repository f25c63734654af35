//! The kinds that describe an activation of the figure and its persistence.
use vstd::prelude::*;

verus! {

/// Why a spike was driven in.
#[derive(Clone, Debug)]
pub enum ActivationPurpose {
    Other(String),
}

/// What came of an activation.
#[derive(Clone, Copy, Debug, PartialEq, Eq, Structural)]
pub enum Outcome {
    Pending,
    Resolved,
    Failed,
}

/// A failure to read, write or parse the saved state.
#[derive(Clone, Debug)]
pub enum IoError {
    Read(String),
    Write(String),
    Parse(String),
}

} // verus!
