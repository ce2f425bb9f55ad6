use vstd::prelude::*;

pub mod error;
pub mod index;
pub mod input;
pub mod lemmas;
pub mod level;

verus! {

} // verus!
