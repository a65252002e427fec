//! The mesh operations, as far as they decide on the connectivity.
use vstd::prelude::*;

pub mod denoise;
pub mod queue;
pub mod remesh;
pub mod round;
pub mod simplify;
pub mod subdivide;

verus! {

} // verus!
