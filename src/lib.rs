use vstd::prelude::*;

pub mod image;
pub mod mesh;
pub mod render;

verus! {

} // verus!
