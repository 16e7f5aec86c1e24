use vstd::prelude::*;

pub mod brush;
pub mod canvas;
pub mod closer;
pub mod color;
pub mod geometry;
pub mod normal;
pub mod panel;
pub mod stroke;

verus! {

} // verus!
