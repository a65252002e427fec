//! The half-edge store, its mathematical model, and what is proved of it.
use vstd::prelude::*;

pub mod assemble;
pub mod collapse;
pub mod construct;
pub mod diamond;
pub mod disassemble;
pub mod flip;
pub mod gluing;
pub mod half_edge;
pub mod laws;
pub mod model;
pub mod rings;
pub mod round_trip;
pub mod sides;
pub mod slots;
pub mod split;

verus! {

} // verus!
