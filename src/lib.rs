use vstd::prelude::*;

pub mod blend;
pub mod color;
pub mod error;
pub mod search;

verus! {

} // verus!
