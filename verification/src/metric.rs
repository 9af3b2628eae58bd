use crate::engine::emd;
use crate::error::EmdError;
use crate::mass::Mass;
use crate::transport::emd_spec;
use vstd::prelude::*;

verus! {

/// The earth mover's distance as a pairwise distance between two rows of
/// masses.
///
/// The metric holds no state: two calls on the same rows return the same
/// distance, and a value can be shared freely between threads.
#[derive(Clone, Copy, Debug, Default)]
pub struct Emd;

impl Emd {
    /// The distance between the rows `a` and `b`: exactly what [`emd`]
    /// computes for them.
    pub fn distance<F: Mass>(&self, a: &[F], b: &[F]) -> (r: Result<F, EmdError>)
        ensures
            r == emd_spec(a@, b@),
            r is Err <==> a@.len() != b@.len(),
    {
        emd(a, b)
    }
}

} // verus!
