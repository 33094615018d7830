//! What the viewer is asked to load.
use vstd::prelude::*;

verus! {

/// The Everything index under a query, or a generated sample of a number of
/// files, flat or spread over folders.
#[derive(Clone, Debug)]
pub enum Source {
    Everything(String),
    Sample(usize, bool),
}

} // verus!
