use vstd::prelude::*;

verus! {

/// Why a distance could not be computed.
#[derive(Clone, Copy, Debug, PartialEq, Eq, Structural)]
pub enum EmdError {
    /// The two sequences do not have the same number of bins.
    DimensionMismatch,
}

} // verus!
